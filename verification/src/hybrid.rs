//! Combining lexical results with the dense (embedding) ranking.
use vstd::prelude::*;
use crate::index::EntryMeta;
use crate::output::{ContextMessage, SessionResult, ResultView, ContextView, result_views};
use crate::query::strs;
use crate::scope::{project_in_scope, spec_ancestor_names, spec_encode_path, spec_project_in_scope};
use crate::search::{ints, lemma_indices_bounded, lemma_indices_complete, spec_indices_where};
use crate::text::{chars_of, chars_equal, string_of};

verus! {

/// Whether a session's project lies in the scope the lexical ladder
/// reported: the working dir's project or a subdirectory project, or, at
/// the ancestor tier, one of the working dir's ancestor projects.
pub open spec fn spec_dense_in_scope(project: Seq<char>, encoded_working_dir: Seq<char>, ancestors: Seq<Seq<char>>) -> bool {
    spec_project_in_scope(project, encoded_working_dir) || ancestors.contains(project)
}

/// Scope test for a dense hit (see [`spec_dense_in_scope`]); `ancestors` is
/// empty below the ancestor tier.
pub fn dense_in_scope(project: &str, encoded_working_dir: &str, ancestors: &Vec<String>) -> (r: bool)
    ensures
        r == spec_dense_in_scope(project@, encoded_working_dir@, strs(ancestors@)),
{
    if project_in_scope(project, encoded_working_dir) {
        return true;
    }
    let p = chars_of(project);
    let mut k: usize = 0;
    while k < ancestors.len()
        invariant
            k <= ancestors@.len(),
            p@ == project@,
            forall|j: int| 0 <= j < k ==> (#[trigger] ancestors@[j])@ != project@,
        decreases ancestors@.len() - k,
    {
        let a = chars_of(ancestors[k].as_str());
        if chars_equal(&a, &p) {
            assert(strs(ancestors@)[k as int] == project@);
            return true;
        }
        k += 1;
    }
    proof {
        if strs(ancestors@).contains(project@) {
            let j = choose|j: int| 0 <= j < strs(ancestors@).len() && strs(ancestors@)[j] == project@;
            assert(ancestors@[j]@ == project@);
        }
    }
    false
}

/// Whether the session of a dense hit lies in the reported scope, judged by
/// the project of its first index entry; a session the index does not know
/// is out of scope.
pub open spec fn spec_hit_in_scope(entries: Seq<EntryMeta>, id: Seq<char>, encoded_working_dir: Seq<char>, ancestors: Seq<Seq<char>>) -> bool {
    match spec_first_entry(entries, id) {
        Some(j) => spec_dense_in_scope(entries[j].project@, encoded_working_dir, ancestors),
        None => false,
    }
}

/// Positions, ascending, of the dense hits (by session id) whose session
/// lies in the reported scope (see [`spec_hit_in_scope`]).
pub fn dense_hits_in_scope(
    ids: &Vec<String>,
    entries: &Vec<EntryMeta>,
    encoded_working_dir: &str,
    ancestors: &Vec<String>,
) -> (r: Vec<usize>)
    ensures
        ints(r@) == spec_indices_where(
            ids@.len() as int,
            |i: int| spec_hit_in_scope(entries@, ids@[i]@, encoded_working_dir@, strs(ancestors@)),
        ),
{
    let ghost pred = |i: int| spec_hit_in_scope(entries@, ids@[i]@, encoded_working_dir@, strs(ancestors@));
    let mut out: Vec<usize> = Vec::new();
    let mut i: usize = 0;
    while i < ids.len()
        invariant
            i <= ids@.len(),
            pred == (|i: int| spec_hit_in_scope(entries@, ids@[i]@, encoded_working_dir@, strs(ancestors@))),
            ints(out@) == spec_indices_where(i as int, pred),
        decreases ids@.len() - i,
    {
        let id = chars_of(ids[i].as_str());
        let keep = match first_entry(entries, &id) {
            Some(j) => dense_in_scope(entries[j].project.as_str(), encoded_working_dir, ancestors),
            None => false,
        };
        assert(keep == pred(i as int));
        let ghost before = ints(out@);
        if keep {
            out.push(i);
            assert(ints(out@) =~= before.push(i as int));
        }
        i += 1;
    }
    out
}

/// Dense filtering and directory resolution apply one scope rule. Among
/// project directory names, the ones a project tier searches (see
/// `select_project_dirs` without `all_projects`) are exactly those whose
/// sessions dense filtering keeps with no ancestors; at the ancestor tier,
/// the ones searched by either resolution step (adding
/// `select_ancestor_dirs`) are exactly those it keeps with the working
/// dir's ancestor names.
pub proof fn lemma_dense_scope_matches_dirs(names: Seq<String>, working_dir: Seq<char>, i: int)
    requires
        0 <= i < names.len(),
    ensures
        spec_indices_where(
            names.len() as int,
            |j: int| false || spec_project_in_scope(names[j]@, spec_encode_path(working_dir)),
        ).contains(i) == spec_dense_in_scope(names[i]@, spec_encode_path(working_dir), Seq::empty()),
        (spec_indices_where(
            names.len() as int,
            |j: int| false || spec_project_in_scope(names[j]@, spec_encode_path(working_dir)),
        ).contains(i) || spec_indices_where(
            names.len() as int,
            |j: int| spec_ancestor_names(working_dir).contains(names[j]@),
        ).contains(i)) == spec_dense_in_scope(names[i]@, spec_encode_path(working_dir), spec_ancestor_names(working_dir)),
{
    let enc = spec_encode_path(working_dir);
    let anc = spec_ancestor_names(working_dir);
    let p1 = |j: int| false || spec_project_in_scope(names[j]@, enc);
    let p2 = |j: int| anc.contains(names[j]@);
    lemma_indices_bounded(names.len() as int, p1);
    lemma_indices_bounded(names.len() as int, p2);
    if p1(i) {
        lemma_indices_complete(names.len() as int, p1, i);
    }
    if p2(i) {
        lemma_indices_complete(names.len() as int, p2, i);
    }
    let s1 = spec_indices_where(names.len() as int, p1);
    let s2 = spec_indices_where(names.len() as int, p2);
    if s1.contains(i) {
        let k = choose|k: int| 0 <= k < s1.len() && #[trigger] s1[k] == i;
        assert(p1(s1[k]));
    }
    if s2.contains(i) {
        let k = choose|k: int| 0 <= k < s2.len() && #[trigger] s2[k] == i;
        assert(p2(s2[k]));
    }
    assert(!Seq::<Seq<char>>::empty().contains(names[i]@));
}

/// `ids` without repetitions, each kept at its first occurrence.
pub open spec fn spec_dedup(ids: Seq<Seq<char>>) -> Seq<Seq<char>>
    decreases ids.len(),
{
    if ids.len() == 0 {
        Seq::empty()
    } else {
        let prev = spec_dedup(ids.drop_last());
        if prev.contains(ids.last()) { prev } else { prev.push(ids.last()) }
    }
}

/// Session ids of the lexical results, each once, in first-appearance order.
pub fn unique_session_ids(results: &Vec<SessionResult>) -> (r: Vec<String>)
    ensures
        strs(r@) == spec_dedup(result_views(results@).map_values(|v: ResultView| v.session_id)),
{
    let ghost ids = result_views(results@).map_values(|v: ResultView| v.session_id);
    let mut out: Vec<String> = Vec::new();
    let mut i: usize = 0;
    while i < results.len()
        invariant
            i <= results@.len(),
            ids == result_views(results@).map_values(|v: ResultView| v.session_id),
            strs(out@) == spec_dedup(ids.take(i as int)),
        decreases results@.len() - i,
    {
        assert(ids.take(i + 1).drop_last() =~= ids.take(i as int));
        let id = chars_of(results[i].session_id.as_str());
        let mut seen = false;
        let mut k: usize = 0;
        while k < out.len()
            invariant
                k <= out@.len(),
                id@ == ids[i as int],
                seen == exists|j: int| 0 <= j < k && (#[trigger] out@[j])@ == id@,
            decreases out@.len() - k,
        {
            let o = chars_of(out[k].as_str());
            if chars_equal(&o, &id) {
                seen = true;
            }
            k += 1;
        }
        proof {
            let so = strs(out@);
            if seen {
                let j = choose|j: int| 0 <= j < out@.len() && (#[trigger] out@[j])@ == id@;
                assert(so[j] == id@);
            }
            if so.contains(id@) {
                let j = choose|j: int| 0 <= j < so.len() && so[j] == id@;
                assert(out@[j]@ == id@);
            }
        }
        if !seen {
            let ghost before = strs(out@);
            out.push(string_of(&id));
            assert(strs(out@) =~= before.push(id@));
        }
        i += 1;
    }
    assert(ids.take(results@.len() as int) =~= ids);
    out
}

/// The placeholder text of a dense-only hit, which has no lexical match to
/// anchor a context window.
pub open spec fn spec_semantic_note() -> Seq<char> {
    "[semantic match — no lexical term; run --mode lexical or open the session for context]"@
}

/// The first index entry of session `id`.
pub open spec fn spec_first_entry(entries: Seq<EntryMeta>, id: Seq<char>) -> Option<int> {
    if exists|j: int| 0 <= j < entries.len() && #[trigger] entries[j].session_id@ == id {
        Some(choose|j: int| 0 <= j < entries.len() && #[trigger] entries[j].session_id@ == id
            && forall|q: int| 0 <= q < j ==> entries[q].session_id@ != id)
    } else {
        None
    }
}

/// The lean result for a dense-only hit of session `id`, from its first
/// index entry.
pub open spec fn spec_lean_result(e: EntryMeta, id: Seq<char>) -> ResultView {
    ResultView {
        session_id: id,
        project_dir: e.project@,
        first_match_timestamp: e.timestamp@,
        match_context: seq![ContextView { role: "system"@, text: spec_semantic_note(), timestamp: e.timestamp@, matched: true }],
    }
}

/// The lexical results of session `id`, in order.
pub open spec fn spec_results_of(lex: Seq<ResultView>, id: Seq<char>) -> Seq<ResultView>
    decreases lex.len(),
{
    if lex.len() == 0 {
        Seq::empty()
    } else {
        let prev = spec_results_of(lex.drop_last(), id);
        if lex.last().session_id == id { prev.push(lex.last()) } else { prev }
    }
}

/// The hybrid answer built from the first `n` fused ids: while fewer than
/// `max` results are collected, an id not yet taken from the lexical
/// results contributes its lexical windows, otherwise one lean result from
/// the index when the index knows it. Returns the results and the ids
/// taken from the lexical results.
pub open spec fn spec_assemble(
    ids: Seq<Seq<char>>,
    lex: Seq<ResultView>,
    entries: Seq<EntryMeta>,
    max: int,
    n: int,
) -> (Seq<ResultView>, Set<Seq<char>>)
    decreases n,
{
    if n <= 0 || n > ids.len() {
        (Seq::empty(), Set::empty())
    } else {
        let (out, taken) = spec_assemble(ids, lex, entries, max, n - 1);
        let id = ids[n - 1];
        let rich = spec_results_of(lex, id);
        if out.len() >= max {
            (out, taken)
        } else if !taken.contains(id) && rich.len() > 0 {
            (out + rich, taken.insert(id))
        } else {
            match spec_first_entry(entries, id) {
                Some(j) => (out.push(spec_lean_result(entries[j], id)), taken),
                None => (out, taken),
            }
        }
    }
}

fn results_of(lex: &Vec<SessionResult>, id: &Vec<char>) -> (r: Vec<usize>)
    ensures
        r@.len() == spec_results_of(result_views(lex@), id@).len(),
        forall|k: int| 0 <= k < r@.len() ==> #[trigger] r@[k] < lex@.len()
            && result_views(lex@)[r@[k] as int] == spec_results_of(result_views(lex@), id@)[k]
            && result_views(lex@)[r@[k] as int].session_id == id@,
        forall|a: int, b: int| 0 <= a < b < r@.len() ==> r@[a] < r@[b],
{
    let ghost lv = result_views(lex@);
    let mut out: Vec<usize> = Vec::new();
    let mut i: usize = 0;
    while i < lex.len()
        invariant
            i <= lex@.len(),
            lv == result_views(lex@),
            out@.len() == spec_results_of(lv.take(i as int), id@).len(),
            forall|k: int| 0 <= k < out@.len() ==> #[trigger] out@[k] < i
                && lv[out@[k] as int] == spec_results_of(lv.take(i as int), id@)[k]
                && lv[out@[k] as int].session_id == id@,
            forall|a: int, b: int| 0 <= a < b < out@.len() ==> out@[a] < out@[b],
        decreases lex@.len() - i,
    {
        assert(lv.take(i + 1).drop_last() =~= lv.take(i as int));
        let s = chars_of(lex[i].session_id.as_str());
        if chars_equal(&s, id) {
            out.push(i);
        }
        i += 1;
    }
    assert(lv.take(lex@.len() as int) =~= lv);
    out
}

fn first_entry(entries: &Vec<EntryMeta>, id: &Vec<char>) -> (r: Option<usize>)
    ensures
        r matches Some(j) ==> j < entries@.len() && spec_first_entry(entries@, id@) == Some(j as int),
        r is None ==> spec_first_entry(entries@, id@) is None,
{
    let mut j: usize = 0;
    while j < entries.len()
        invariant
            j <= entries@.len(),
            forall|q: int| 0 <= q < j ==> (#[trigger] entries@[q]).session_id@ != id@,
        decreases entries@.len() - j,
    {
        let s = chars_of(entries[j].session_id.as_str());
        if chars_equal(&s, id) {
            proof {
                let w = spec_first_entry(entries@, id@);
                assert(entries@[j as int].session_id@ == id@);
                let c = w->0;
                if c < j {
                    assert(entries@[c].session_id@ != id@);
                } else if c > j {
                    assert(entries@[j as int].session_id@ != id@);
                }
            }
            return Some(j);
        }
        j += 1;
    }
    None
}


fn lean_result(e: &EntryMeta, id: &Vec<char>) -> (r: SessionResult)
    ensures
        r@ == spec_lean_result(*e, id@),
{
    let mut ctx: Vec<ContextMessage> = Vec::new();
    ctx.push(ContextMessage {
        role: string_of(&chars_of("system")),
        text: string_of(&chars_of("[semantic match — no lexical term; run --mode lexical or open the session for context]")),
        timestamp: e.timestamp.clone(),
        matched: true,
    });
    let r = SessionResult {
        session_id: string_of(id),
        project_dir: e.project.clone(),
        first_match_timestamp: e.timestamp.clone(),
        match_context: ctx,
    };
    assert(r@.match_context =~= spec_lean_result(*e, id@).match_context);
    r
}

/// The hybrid answer (see [`spec_assemble`]): rich lexical windows for the
/// fused ids that have them, lean results for dense-only ids, stopping
/// once `max_results` are collected.
pub fn assemble_hybrid(
    final_ids: &Vec<String>,
    lexical: Vec<SessionResult>,
    entries: &Vec<EntryMeta>,
    max_results: usize,
) -> (r: Vec<SessionResult>)
    ensures
        result_views(r@) == spec_assemble(strs(final_ids@), result_views(lexical@), entries@, max_results as int,
            final_ids@.len() as int).0,
{
    let ghost ids = strs(final_ids@);
    let ghost lv = result_views(lexical@);
    let mut plans: Vec<Vec<usize>> = Vec::new();
    let mut p: usize = 0;
    while p < final_ids.len()
        invariant
            p <= final_ids@.len(),
            ids == strs(final_ids@),
            lv == result_views(lexical@),
            plans@.len() == p,
            forall|x: int| 0 <= x < p ==> {
                let r = #[trigger] plans@[x]@;
                &&& r.len() == spec_results_of(lv, ids[x]).len()
                &&& forall|k: int| 0 <= k < r.len() ==> #[trigger] r[k] < lv.len()
                    && lv[r[k] as int] == spec_results_of(lv, ids[x])[k] && lv[r[k] as int].session_id == ids[x]
                &&& forall|a: int, b: int| 0 <= a < b < r.len() ==> r[a] < r[b]
            },
        decreases final_ids@.len() - p,
    {
        let id = chars_of(final_ids[p].as_str());
        plans.push(results_of(&lexical, &id));
        p += 1;
    }
    let mut pool = lexical;
    let mut out: Vec<SessionResult> = Vec::new();
    let ghost mut taken: Set<Seq<char>> = Set::empty();
    let mut taken_ids: Vec<Vec<char>> = Vec::new();
    let mut i: usize = 0;
    while i < final_ids.len()
        invariant
            i <= final_ids@.len(),
            ids == strs(final_ids@),
            plans@.len() == final_ids@.len(),
            forall|x: int| 0 <= x < final_ids@.len() ==> {
                let r = #[trigger] plans@[x]@;
                &&& r.len() == spec_results_of(lv, ids[x]).len()
                &&& forall|k: int| 0 <= k < r.len() ==> #[trigger] r[k] < lv.len()
                    && lv[r[k] as int] == spec_results_of(lv, ids[x])[k] && lv[r[k] as int].session_id == ids[x]
                &&& forall|a: int, b: int| 0 <= a < b < r.len() ==> r[a] < r[b]
            },
            pool@.len() == lv.len(),
            (result_views(out@), taken) == spec_assemble(ids, lv, entries@, max_results as int, i as int),
            forall|x: Seq<char>| #[trigger] taken.contains(x) <==> exists|j: int| 0 <= j < taken_ids@.len() && taken_ids@[j]@ == x,
            forall|q: int| 0 <= q < lv.len() && !taken.contains(lv[q].session_id) ==> (#[trigger] pool@[q])@ == lv[q],
        decreases final_ids@.len() - i,
    {
        let ghost prev_out = result_views(out@);
        if out.len() >= max_results {
            i += 1;
            continue;
        }
        let id = chars_of(final_ids[i].as_str());
        let mut already = false;
        let mut t: usize = 0;
        while t < taken_ids.len()
            invariant
                t <= taken_ids@.len(),
                already == exists|j: int| 0 <= j < t && (#[trigger] taken_ids@[j])@ == id@,
            decreases taken_ids@.len() - t,
        {
            if chars_equal(&taken_ids[t], &id) {
                already = true;
            }
            t += 1;
        }
        let ghost rich = spec_results_of(lv, ids[i as int]);
        let ghost plan = plans@[i as int]@;
        if !already && plans[i].len() > 0 {
            let mut k: usize = 0;
            while k < plans[i].len()
                invariant
                    i < final_ids@.len(),
                    plans@.len() == final_ids@.len(),
                    plan == plans@[i as int]@,
                    k <= plan.len(),
                    plan.len() == rich.len(),
                    forall|z: int| 0 <= z < plan.len() ==> #[trigger] plan[z] < lv.len()
                        && lv[plan[z] as int] == rich[z] && lv[plan[z] as int].session_id == ids[i as int],
                    forall|a: int, b: int| 0 <= a < b < plan.len() ==> plan[a] < plan[b],
                    pool@.len() == lv.len(),
                    result_views(out@) == prev_out + rich.take(k as int),
                    !taken.contains(ids[i as int]),
                    forall|q: int| 0 <= q < lv.len() && !taken.contains(lv[q].session_id)
                        && !(exists|z: int| 0 <= z < k && plan[z] == q) ==> (#[trigger] pool@[q])@ == lv[q],
                decreases plan.len() - k,
            {
                let idx = plans[i][k];
                let mut item = SessionResult {
                    session_id: String::new(),
                    project_dir: String::new(),
                    first_match_timestamp: String::new(),
                    match_context: Vec::new(),
                };
                let ghost before_pool = pool@;
                proof {
                    assert(!(exists|z: int| 0 <= z < k && plan[z] == idx as int)) by {
                        if exists|z: int| 0 <= z < k && plan[z] == idx as int {
                            let z = choose|z: int| 0 <= z < k && plan[z] == idx as int;
                            assert(plan[z] < plan[k as int]);
                        }
                    }
                    assert(before_pool[idx as int]@ == lv[idx as int]);
                }
                std::mem::swap(&mut item, &mut pool[idx as usize]);
                let ghost before = result_views(out@);
                out.push(item);
                proof {
                    assert(rich.take(k + 1) =~= rich.take(k as int).push(rich[k as int]));
                    assert(result_views(out@) =~= before.push(lv[idx as int]));
                    assert forall|q: int| 0 <= q < lv.len() && !taken.contains(lv[q].session_id)
                        && !(exists|z: int| 0 <= z < k + 1 && plan[z] == q) implies (#[trigger] pool@[q])@ == lv[q] by {
                        assert(q != idx as int);
                        assert(pool@[q] == before_pool[q]);
                    }
                }
                k += 1;
            }
            let ghost mut old_taken: Set<Seq<char>> = taken;
            proof {
                assert(rich.take(rich.len() as int) =~= rich);
                assert forall|q: int| 0 <= q < lv.len() && !taken.insert(ids[i as int]).contains(lv[q].session_id)
                    implies (#[trigger] pool@[q])@ == lv[q] by {
                    if exists|z: int| 0 <= z < plan.len() && plan[z] == q {
                        let z = choose|z: int| 0 <= z < plan.len() && plan[z] == q;
                        assert(lv[q].session_id == ids[i as int]);
                    }
                }
                old_taken = taken;
                taken = taken.insert(ids[i as int]);
            }
            let ghost old_ids = taken_ids@;
            assert(id@ == ids[i as int]);
            taken_ids.push(id);
            proof {
                assert forall|x: Seq<char>| #[trigger] taken.contains(x) <==> exists|j: int| 0 <= j < taken_ids@.len() && taken_ids@[j]@ == x by {
                    if x == ids[i as int] {
                        assert(taken_ids@[taken_ids@.len() - 1]@ == x);
                    } else {
                        if old_taken.contains(x) {
                            let j = choose|j: int| 0 <= j < old_ids.len() && old_ids[j]@ == x;
                            assert(taken_ids@[j]@ == x);
                        }
                        if exists|j: int| 0 <= j < taken_ids@.len() && taken_ids@[j]@ == x {
                            let j = choose|j: int| 0 <= j < taken_ids@.len() && taken_ids@[j]@ == x;
                            assert(j < old_ids.len());
                            assert(old_ids[j]@ == x);
                        }
                    }
                }
            }
        } else {
            match first_entry(entries, &id) {
                Some(j) => {
                    let lean = lean_result(&entries[j], &id);
                    let ghost before = result_views(out@);
                    out.push(lean);
                    assert(result_views(out@) =~= before.push(spec_lean_result(entries@[j as int], id@)));
                },
                None => {},
            }
        }
        i += 1;
    }
    out
}

} // verus!
