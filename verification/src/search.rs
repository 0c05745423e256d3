//! Evaluating a compiled query against one session.
use vstd::prelude::*;
use crate::parser::{Message, MessageView};
use crate::query::{CompiledQuery, matches_text, spec_matches_text, strs, opt_str};
use crate::text::{chars_of, chars_equal, contains_chars, lowercase, push_str, spec_contains, spec_lowercase,
    spec_join, lemma_join_push};

verus! {

/// A message index that anchors a result window.
#[derive(Debug)]
pub struct Match {
    pub message_index: usize,
}

/// Result of evaluating a query against one session.
pub struct SessionEval {
    /// Message indices (role-filtered) that contain a positive phrase, or the
    /// first role-eligible message as an anchor for pure-NOT/filter queries.
    pub matches: Vec<Match>,
    /// Indices into `query.positive_phrases` that appear in the session. The
    /// caller weights these by inverse document frequency to rank by relevance
    /// (rare terms count more) without a session-length bias.
    pub matched_terms: Vec<usize>,
}

/// The indices of a vector of matches.
pub open spec fn match_indices(ms: Seq<Match>) -> Seq<int> {
    ms.map_values(|m: Match| m.message_index as int)
}

/// The integers of a vector of `usize`.
pub open spec fn ints(v: Seq<usize>) -> Seq<int> {
    v.map_values(|x: usize| x as int)
}

/// The indices below `n` satisfying `pred`, ascending.
pub open spec fn spec_indices_where(n: int, pred: spec_fn(int) -> bool) -> Seq<int>
    decreases n,
{
    if n <= 0 {
        Seq::empty()
    } else if pred(n - 1) {
        spec_indices_where(n - 1, pred).push(n - 1)
    } else {
        spec_indices_where(n - 1, pred)
    }
}

/// Whether a message passes the role filter.
pub open spec fn spec_role_ok(m: MessageView, role: Option<Seq<char>>) -> bool {
    match role {
        None => true,
        Some(r) => m.role == r,
    }
}

/// Lowercased texts of the first `n` messages that pass the role filter.
pub open spec fn spec_eligible_texts(msgs: Seq<MessageView>, role: Option<Seq<char>>, n: int) -> Seq<Seq<char>>
    decreases n,
{
    if n <= 0 || n > msgs.len() {
        Seq::empty()
    } else if spec_role_ok(msgs[n - 1], role) {
        spec_eligible_texts(msgs, role, n - 1).push(spec_lowercase(msgs[n - 1].text))
    } else {
        spec_eligible_texts(msgs, role, n - 1)
    }
}

/// The lowercased text of a session's role-eligible messages, one per line.
pub open spec fn spec_session_text(msgs: Seq<MessageView>, role: Option<Seq<char>>) -> Seq<char> {
    spec_join(spec_eligible_texts(msgs, role, msgs.len() as int), "\n"@)
}

/// Whether some phrase occurs in `text`.
pub open spec fn spec_has_phrase(text: Seq<char>, phrases: Seq<Seq<char>>) -> bool {
    exists|p: int| 0 <= p < phrases.len() && spec_contains(text, #[trigger] phrases[p])
}

/// Role-eligible messages whose lowercased text holds a positive phrase.
pub open spec fn spec_hits(msgs: Seq<MessageView>, role: Option<Seq<char>>, phrases: Seq<Seq<char>>) -> Seq<int> {
    spec_indices_where(
        msgs.len() as int,
        |j: int| spec_role_ok(msgs[j], role) && spec_has_phrase(spec_lowercase(msgs[j].text), phrases),
    )
}

/// Role-eligible messages.
pub open spec fn spec_eligible(msgs: Seq<MessageView>, role: Option<Seq<char>>) -> Seq<int> {
    spec_indices_where(msgs.len() as int, |j: int| spec_role_ok(msgs[j], role))
}

/// The anchors of a session: its hits, or when there are none its first
/// eligible message, or nothing.
pub open spec fn spec_anchors(msgs: Seq<MessageView>, role: Option<Seq<char>>, phrases: Seq<Seq<char>>) -> Seq<int> {
    let hits = spec_hits(msgs, role, phrases);
    let eligible = spec_eligible(msgs, role);
    if hits.len() > 0 {
        hits
    } else if eligible.len() > 0 {
        seq![eligible[0]]
    } else {
        Seq::empty()
    }
}

/// The messages of a session as views.
pub open spec fn msg_views(ms: Seq<Message>) -> Seq<MessageView> {
    ms.map_values(|m: Message| m@)
}

/// The selected indices lie below the bound and satisfy the predicate.
pub proof fn lemma_indices_bounded(n: int, pred: spec_fn(int) -> bool)
    ensures
        forall|k: int| 0 <= k < spec_indices_where(n, pred).len() ==>
            0 <= #[trigger] spec_indices_where(n, pred)[k] < n && pred(spec_indices_where(n, pred)[k]),
        spec_indices_where(n, pred).len() <= if n < 0 { 0 } else { n },
    decreases n,
{
    if n > 0 {
        lemma_indices_bounded(n - 1, pred);
    }
}

/// Every index below the bound satisfying the predicate is selected.
pub proof fn lemma_indices_complete(n: int, pred: spec_fn(int) -> bool, i: int)
    requires
        0 <= i < n,
        pred(i),
    ensures
        spec_indices_where(n, pred).contains(i),
    decreases n,
{
    if n - 1 > i {
        lemma_indices_complete(n - 1, pred, i);
        let prev = spec_indices_where(n - 1, pred);
        let k = choose|k: int| 0 <= k < prev.len() && #[trigger] prev[k] == i;
        if pred(n - 1) {
            assert(spec_indices_where(n, pred)[k] == i);
        }
    } else {
        let s = spec_indices_where(n, pred);
        assert(s[s.len() - 1] == i);
    }
}

proof fn lemma_indices_first(n: int, pred: spec_fn(int) -> bool, k: int)
    requires
        0 <= k < n,
        pred(k),
        forall|j: int| 0 <= j < k ==> !#[trigger] pred(j),
    ensures
        spec_indices_where(n, pred).len() > 0,
        spec_indices_where(n, pred)[0] == k,
    decreases n,
{
    if n - 1 > k {
        lemma_indices_first(n - 1, pred, k);
    } else {
        assert(n - 1 == k);
        lemma_indices_none(k, pred);
    }
}

proof fn lemma_indices_none(n: int, pred: spec_fn(int) -> bool)
    requires
        forall|j: int| 0 <= j < n ==> !#[trigger] pred(j),
    ensures
        spec_indices_where(n, pred).len() == 0,
    decreases n,
{
    if n > 0 {
        lemma_indices_none(n - 1, pred);
    }
}

/// Concatenate the lowercased text of messages, restricted to a role when one is given.
fn session_text(messages: &[Message], role: &Option<String>) -> (r: String)
    ensures
        r@ == spec_session_text(msg_views(messages@), opt_str(*role)),
{
    let ghost msgs = msg_views(messages@);
    let ghost rv = opt_str(*role);
    let role_chars = match role {
        Some(r) => Some(chars_of(r.as_str())),
        None => None,
    };
    let mut out = String::new();
    let mut none_yet = true;
    let mut i: usize = 0;
    while i < messages.len()
        invariant
            i <= messages@.len(),
            msgs == msg_views(messages@),
            rv == opt_str(*role),
            role_chars matches Some(rc) ==> rv == Some(rc@),
            role_chars is None ==> rv is None,
            out@ == spec_join(spec_eligible_texts(msgs, rv, i as int), "\n"@),
            none_yet == (spec_eligible_texts(msgs, rv, i as int).len() == 0),
        decreases messages@.len() - i,
    {
        let ok = match &role_chars {
            None => true,
            Some(rc) => {
                let mr = chars_of(messages[i].role.as_str());
                chars_equal(&mr, rc)
            },
        };
        assert(ok == spec_role_ok(msgs[i as int], rv));
        if ok {
            let lower = lowercase(messages[i].text.as_str());
            proof {
                lemma_join_push(spec_eligible_texts(msgs, rv, i as int), "\n"@, lower@);
            }
            if !none_yet {
                push_str(&mut out, "\n");
            }
            push_str(&mut out, lower.as_str());
            none_yet = false;
        }
        i += 1;
    }
    out
}

/// Positions of the query's positive phrases that occur in the session
/// text, when the session satisfies the query; otherwise none.
pub open spec fn spec_eval_terms(msgs: Seq<MessageView>, q: CompiledQuery) -> Seq<int> {
    let text = spec_session_text(msgs, opt_str(q.filters.role));
    let phrases = strs(q.positive_phrases@);
    if spec_matches_text(q, text) {
        spec_indices_where(phrases.len() as int, |t: int| spec_contains(text, phrases[t]))
    } else {
        Seq::empty()
    }
}

/// Anchor messages of the session (see [`spec_anchors`]) when it satisfies
/// the query; otherwise none.
pub open spec fn spec_eval_anchors(msgs: Seq<MessageView>, q: CompiledQuery) -> Seq<int> {
    let text = spec_session_text(msgs, opt_str(q.filters.role));
    if spec_matches_text(q, text) {
        spec_anchors(msgs, opt_str(q.filters.role), strs(q.positive_phrases@))
    } else {
        Seq::empty()
    }
}

/// The selected indices are strictly increasing.
pub proof fn lemma_indices_sorted(n: int, pred: spec_fn(int) -> bool)
    ensures
        forall|a: int, b: int| 0 <= a < b < spec_indices_where(n, pred).len() ==>
            spec_indices_where(n, pred)[a] < spec_indices_where(n, pred)[b],
    decreases n,
{
    if n > 0 {
        lemma_indices_sorted(n - 1, pred);
        lemma_indices_bounded(n - 1, pred);
    }
}

/// Anchor messages are messages of the session.
pub proof fn lemma_anchors_bounded(msgs: Seq<MessageView>, q: CompiledQuery)
    ensures
        forall|k: int| 0 <= k < spec_eval_anchors(msgs, q).len() ==>
            0 <= #[trigger] spec_eval_anchors(msgs, q)[k] < msgs.len(),
{
    let role = opt_str(q.filters.role);
    let phrases = strs(q.positive_phrases@);
    lemma_indices_bounded(msgs.len() as int,
        |j: int| spec_role_ok(msgs[j], role) && spec_has_phrase(spec_lowercase(msgs[j].text), phrases));
    lemma_indices_bounded(msgs.len() as int, |j: int| spec_role_ok(msgs[j], role));
}

/// Anchors respect the role filter: every anchor is a message of the
/// session, and with a role filter every anchor is a message of that role.
/// Anchors come in increasing message order, and when some message of the
/// role holds a positive phrase, every anchor holds one.
pub proof fn lemma_anchors_respect_role(msgs: Seq<MessageView>, q: CompiledQuery)
    ensures
        forall|k: int| 0 <= k < spec_eval_anchors(msgs, q).len() ==> {
            let a = #[trigger] spec_eval_anchors(msgs, q)[k];
            &&& 0 <= a < msgs.len()
            &&& (q.filters.role matches Some(r) ==> msgs[a].role == r@)
        },
        forall|j: int, k: int| 0 <= j < k < spec_eval_anchors(msgs, q).len() ==>
            spec_eval_anchors(msgs, q)[j] < spec_eval_anchors(msgs, q)[k],
        (exists|i: int| 0 <= i < msgs.len() && spec_role_ok(msgs[i], opt_str(q.filters.role))
            && #[trigger] spec_has_phrase(spec_lowercase(msgs[i].text), strs(q.positive_phrases@)))
            ==> forall|k: int| 0 <= k < spec_eval_anchors(msgs, q).len() ==>
                spec_has_phrase(spec_lowercase(msgs[#[trigger] spec_eval_anchors(msgs, q)[k]].text), strs(q.positive_phrases@)),
{
    let role = opt_str(q.filters.role);
    let phrases = strs(q.positive_phrases@);
    let hp = |j: int| spec_role_ok(msgs[j], role) && spec_has_phrase(spec_lowercase(msgs[j].text), phrases);
    let ep = |j: int| spec_role_ok(msgs[j], role);
    lemma_indices_bounded(msgs.len() as int, hp);
    lemma_indices_bounded(msgs.len() as int, ep);
    lemma_indices_sorted(msgs.len() as int, hp);
    let a = spec_eval_anchors(msgs, q);
    if exists|i: int| 0 <= i < msgs.len() && spec_role_ok(msgs[i], role)
        && #[trigger] spec_has_phrase(spec_lowercase(msgs[i].text), phrases) {
        let i = choose|i: int| 0 <= i < msgs.len() && spec_role_ok(msgs[i], role)
            && #[trigger] spec_has_phrase(spec_lowercase(msgs[i].text), phrases);
        lemma_indices_complete(msgs.len() as int, hp, i);
    }
    assert forall|k: int| 0 <= k < a.len() implies {
        let x = #[trigger] a[k];
        &&& 0 <= x < msgs.len()
        &&& (q.filters.role matches Some(r) ==> msgs[x].role == r@)
    } by {
        assert(spec_role_ok(msgs[a[k]], role));
    }
}

/// Session-scope evaluation: when the role-filtered session text satisfies
/// the query, the positive phrases present in it and the anchor messages;
/// otherwise nothing.
pub fn evaluate(messages: &[Message], query: &CompiledQuery) -> (r: SessionEval)
    ensures
        ints(r.matched_terms@) == spec_eval_terms(msg_views(messages@), *query),
        match_indices(r.matches@) == spec_eval_anchors(msg_views(messages@), *query),
        forall|k: int| 0 <= k < r.matches@.len() ==> {
            let i = (#[trigger] r.matches@[k]).message_index;
            &&& i < messages@.len()
            &&& (query.filters.role matches Some(role) ==> messages@[i as int].role@ == role@)
        },
{
    let ghost msgs = msg_views(messages@);
    let ghost rv = opt_str(query.filters.role);
    let ghost phrases = strs(query.positive_phrases@);
    let text = session_text(messages, &query.filters.role);
    if !matches_text(query, text.as_str()) {
        let r = SessionEval { matches: Vec::new(), matched_terms: Vec::new() };
        assert(ints(r.matched_terms@) =~= Seq::empty());
        assert(match_indices(r.matches@) =~= Seq::empty());
        return r;
    }
    let tc = chars_of(text.as_str());
    let mut phrase_chars: Vec<Vec<char>> = Vec::new();
    let mut matched_terms: Vec<usize> = Vec::new();
    let ghost tpred = |t: int| spec_contains(text@, phrases[t]);
    let mut t: usize = 0;
    while t < query.positive_phrases.len()
        invariant
            t <= phrases.len(),
            phrases == strs(query.positive_phrases@),
            tc@ == text@,
            tpred == (|t: int| spec_contains(text@, phrases[t])),
            phrase_chars@.len() == t,
            forall|k: int| 0 <= k < t ==> (#[trigger] phrase_chars@[k])@ == phrases[k],
            ints(matched_terms@) == spec_indices_where(t as int, tpred),
        decreases phrases.len() - t,
    {
        let pc = chars_of(query.positive_phrases[t].as_str());
        let ghost before = matched_terms@;
        if contains_chars(&tc, &pc) {
            matched_terms.push(t);
            assert(ints(matched_terms@) =~= ints(before).push(t as int));
        }
        phrase_chars.push(pc);
        t += 1;
    }
    let role_chars = match &query.filters.role {
        Some(r) => Some(chars_of(r.as_str())),
        None => None,
    };
    let ghost hpred = |j: int| spec_role_ok(msgs[j], rv) && spec_has_phrase(spec_lowercase(msgs[j].text), phrases);
    let ghost epred = |j: int| spec_role_ok(msgs[j], rv);
    let mut matches: Vec<Match> = Vec::new();
    let mut first_eligible: Option<usize> = None;
    let mut i: usize = 0;
    while i < messages.len()
        invariant
            i <= messages@.len(),
            msgs == msg_views(messages@),
            phrases == strs(query.positive_phrases@),
            rv == opt_str(query.filters.role),
            role_chars matches Some(rc) ==> rv == Some(rc@),
            role_chars is None ==> rv is None,
            phrase_chars@.len() == phrases.len(),
            forall|k: int| 0 <= k < phrases.len() ==> (#[trigger] phrase_chars@[k])@ == phrases[k],
            hpred == (|j: int| spec_role_ok(msgs[j], rv) && spec_has_phrase(spec_lowercase(msgs[j].text), phrases)),
            epred == (|j: int| spec_role_ok(msgs[j], rv)),
            match_indices(matches@) == spec_indices_where(i as int, hpred),
            first_eligible matches Some(k) ==> k < i && epred(k as int) && forall|j: int| 0 <= j < k ==> !#[trigger] epred(j),
            first_eligible is None ==> forall|j: int| 0 <= j < i ==> !#[trigger] epred(j),
        decreases messages@.len() - i,
    {
        let ok = match &role_chars {
            None => true,
            Some(rc) => {
                let mr = chars_of(messages[i].role.as_str());
                chars_equal(&mr, rc)
            },
        };
        assert(ok == epred(i as int));
        if ok {
            if first_eligible.is_none() {
                first_eligible = Some(i);
            }
            let lower = chars_of(lowercase(messages[i].text.as_str()).as_str());
            let mut any = false;
            let mut p: usize = 0;
            while p < phrase_chars.len()
                invariant
                    p <= phrase_chars@.len(),
                    phrase_chars@.len() == phrases.len(),
                    forall|k: int| 0 <= k < phrases.len() ==> (#[trigger] phrase_chars@[k])@ == phrases[k],
                    any == exists|k: int| 0 <= k < p && spec_contains(lower@, #[trigger] phrases[k]),
                decreases phrase_chars@.len() - p,
            {
                if contains_chars(&lower, &phrase_chars[p]) {
                    any = true;
                }
                p += 1;
            }
            assert(any == hpred(i as int));
            if any {
                let ghost before = matches@;
                matches.push(Match { message_index: i });
                assert(match_indices(matches@) =~= match_indices(before).push(i as int));
            }
        } else {
            assert(!hpred(i as int));
        }
        i += 1;
    }
    proof {
        lemma_indices_bounded(msgs.len() as int, hpred);
    }
    if matches.len() == 0 {
        match first_eligible {
            Some(k) => {
                proof {
                    lemma_indices_first(msgs.len() as int, epred, k as int);
                }
                matches.push(Match { message_index: k });
                assert(match_indices(matches@) =~= seq![k as int]);
            },
            None => {
                proof {
                    lemma_indices_none(msgs.len() as int, epred);
                }
            },
        }
    }
    proof {
        lemma_anchors_respect_role(msgs, *query);
        assert forall|k: int| 0 <= k < matches@.len() implies {
            let i = (#[trigger] matches@[k]).message_index;
            &&& i < messages@.len()
            &&& (query.filters.role matches Some(role) ==> messages@[i as int].role@ == role@)
        } by {
            assert(match_indices(matches@)[k] == matches@[k].message_index as int);
        }
    }
    SessionEval { matches, matched_terms }
}

/// Window `[start, end)` of `context` messages on each side of `match_idx`,
/// clipped to `0..total`.
pub open spec fn spec_context_range(match_idx: int, context: int, total: int) -> (int, int) {
    (
        if match_idx >= context { match_idx - context } else { 0 },
        if match_idx + context + 1 <= total { match_idx + context + 1 } else { total },
    )
}

/// Window of `context` messages around a match (see [`spec_context_range`]).
pub fn context_range(match_idx: usize, context: usize, total: usize) -> (r: (usize, usize))
    requires
        match_idx + context + 1 <= usize::MAX,
    ensures
        r.0 == spec_context_range(match_idx as int, context as int, total as int).0,
        r.1 == spec_context_range(match_idx as int, context as int, total as int).1,
{
    let start = if match_idx >= context { match_idx - context } else { 0 };
    let end = if match_idx + context + 1 <= total { match_idx + context + 1 } else { total };
    (start, end)
}

} // verus!
