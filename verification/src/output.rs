//! Search results and their text rendering.
use vstd::prelude::*;
use crate::parser::{Message, MessageView};
use crate::search::{Match, context_range, spec_context_range, match_indices, msg_views};
use crate::text::{chars_of, push_char, push_chars, push_str, push_decimal, trim_chars, string_of, spec_trim,
    spec_decimal};

verus! {

/// One message of a result window.
#[derive(Debug, Clone)]
pub struct ContextMessage {
    pub role: String,
    pub text: String,
    pub timestamp: String,
    pub matched: bool,
}

/// One result window of a session.
#[derive(Debug, Clone)]
pub struct SessionResult {
    pub session_id: String,
    pub project_dir: String,
    pub first_match_timestamp: String,
    pub match_context: Vec<ContextMessage>,
}

/// A whole search answer.
#[derive(Debug)]
pub struct SearchOutput {
    pub query: String,
    pub sessions_searched: usize,
    pub scope_reached: String,
    pub hit_count: usize,
    pub mode: String,
    pub results: Vec<SessionResult>,
    pub error: Option<String>,
}

/// The mathematical content of a [`ContextMessage`].
pub struct ContextView {
    pub role: Seq<char>,
    pub text: Seq<char>,
    pub timestamp: Seq<char>,
    pub matched: bool,
}

impl View for ContextMessage {
    type V = ContextView;

    open spec fn view(&self) -> ContextView {
        ContextView { role: self.role@, text: self.text@, timestamp: self.timestamp@, matched: self.matched }
    }
}

/// The mathematical content of a [`SessionResult`].
pub struct ResultView {
    pub session_id: Seq<char>,
    pub project_dir: Seq<char>,
    pub first_match_timestamp: Seq<char>,
    pub match_context: Seq<ContextView>,
}

impl View for SessionResult {
    type V = ResultView;

    open spec fn view(&self) -> ResultView {
        ResultView {
            session_id: self.session_id@,
            project_dir: self.project_dir@,
            first_match_timestamp: self.first_match_timestamp@,
            match_context: self.match_context@.map_values(|c: ContextMessage| c@),
        }
    }
}

/// The views of a vector of results.
pub open spec fn result_views(rs: Seq<SessionResult>) -> Seq<ResultView> {
    rs.map_values(|r: SessionResult| r@)
}

/// Whether window `r` lies inside window `s`.
pub open spec fn spec_within(r: (int, int), s: (int, int)) -> bool {
    r.0 >= s.0 && r.1 <= s.1
}

/// Positions (into `ms`) of the matches that produce a result window: in
/// order, skipping a match whose window lies inside the window of an
/// earlier producing match, and stopping once `max` windows are produced.
pub open spec fn spec_producing(ms: Seq<int>, context: int, total: int, max: int) -> Seq<int>
    decreases ms.len(),
{
    if ms.len() == 0 {
        Seq::empty()
    } else {
        let prev = spec_producing(ms.drop_last(), context, total, max);
        let r = spec_context_range(ms.last(), context, total);
        if prev.len() >= max {
            prev
        } else if exists|k: int| 0 <= k < prev.len()
            && spec_within(r, spec_context_range(ms[#[trigger] prev[k]], context, total)) {
            prev
        } else {
            prev.push(ms.len() - 1)
        }
    }
}

/// The window of messages `[start, end)` around a match, each marked
/// whether it is itself a match.
pub open spec fn spec_window(msgs: Seq<MessageView>, ms: Seq<int>, start: int, end: int) -> Seq<ContextView> {
    Seq::new((end - start) as nat, |i: int| ContextView {
        role: msgs[start + i].role,
        text: msgs[start + i].text,
        timestamp: msgs[start + i].timestamp,
        matched: ms.contains(start + i),
    })
}

/// The result window produced by the match at message `idx`.
pub open spec fn spec_result_for(msgs: Seq<MessageView>, ms: Seq<int>, idx: int, context: int, project: Seq<char>) -> ResultView {
    let r = spec_context_range(idx, context, msgs.len() as int);
    ResultView {
        session_id: msgs[idx].session_id,
        project_dir: project,
        first_match_timestamp: msgs[idx].timestamp,
        match_context: spec_window(msgs, ms, r.0, r.1),
    }
}

/// The result windows of a session's matches: one per producing match.
pub open spec fn spec_session_results(msgs: Seq<MessageView>, ms: Seq<int>, context: int, project: Seq<char>, max: int) -> Seq<ResultView> {
    let prod = spec_producing(ms, context, msgs.len() as int, max);
    Seq::new(prod.len(), |k: int| spec_result_for(msgs, ms, ms[prod[k]], context, project))
}

/// A session yields no more windows than it has matches, and no more than
/// `max`; each window comes from one of its matches.
pub proof fn lemma_producing_props(ms: Seq<int>, context: int, total: int, max: int)
    ensures
        spec_producing(ms, context, total, max).len() <= ms.len(),
        max >= 0 ==> spec_producing(ms, context, total, max).len() <= max,
        forall|k: int| 0 <= k < spec_producing(ms, context, total, max).len() ==>
            0 <= #[trigger] spec_producing(ms, context, total, max)[k] < ms.len(),
    decreases ms.len(),
{
    if ms.len() > 0 {
        lemma_producing_props(ms.drop_last(), context, total, max);
    }
}

/// Whether result window `r` is anchored on match `ms[j]` of the session,
/// shown at position `o` of its context: it takes its session id and
/// first-match timestamp from that message, names `project`, and shows a
/// contiguous run of the session's messages holding it with at most
/// `context` messages on either side, each marked matched exactly when it
/// is a match.
pub open spec fn spec_anchored_on(r: ResultView, msgs: Seq<MessageView>, ms: Seq<int>, j: int, o: int, context: int, project: Seq<char>) -> bool {
    let m = ms[j];
    &&& 0 <= j < ms.len()
    &&& r.session_id == msgs[m].session_id
    &&& r.first_match_timestamp == msgs[m].timestamp
    &&& r.project_dir == project
    &&& 0 <= o < r.match_context.len()
    &&& o <= context
    &&& r.match_context.len() - 1 - o <= context
    &&& 0 <= m - o
    &&& m - o + r.match_context.len() <= msgs.len()
    &&& forall|i: int| 0 <= i < r.match_context.len() ==> {
        let c = #[trigger] r.match_context[i];
        &&& c.role == msgs[m - o + i].role
        &&& c.text == msgs[m - o + i].text
        &&& c.timestamp == msgs[m - o + i].timestamp
        &&& c.matched == ms.contains(m - o + i)
    }
}

/// Whether result window `r` is anchored on some match of the session (see
/// [`spec_anchored_on`]).
pub open spec fn spec_anchored(r: ResultView, msgs: Seq<MessageView>, ms: Seq<int>, context: int, project: Seq<char>) -> bool {
    exists|j: int, o: int| spec_anchored_on(r, msgs, ms, j, o, context, project)
}

/// Every result window of a session is anchored on one of its matches (see
/// [`spec_anchored_on`]). There are no more windows than matches, and at
/// most `max`.
pub proof fn lemma_results_anchor_on_matches(
    msgs: Seq<MessageView>,
    ms: Seq<int>,
    context: int,
    project: Seq<char>,
    max: int,
    results: Seq<ResultView>,
)
    requires
        forall|j: int| 0 <= j < ms.len() ==> 0 <= #[trigger] ms[j] < msgs.len(),
        context >= 0,
        results == spec_session_results(msgs, ms, context, project, max),
    ensures
        results.len() <= ms.len(),
        max >= 0 ==> results.len() <= max,
        forall|k: int| 0 <= k < results.len() ==> spec_anchored(#[trigger] results[k], msgs, ms, context, project),
{
    lemma_producing_props(ms, context, msgs.len() as int, max);
    assert forall|k: int| 0 <= k < results.len() implies spec_anchored(#[trigger] results[k], msgs, ms, context, project) by {
        let w = lemma_result_anchored(msgs, ms, context, project, max, results, k);
        assert(spec_anchored_on(results[k], msgs, ms, w.0, w.1, context, project));
    }
}

proof fn lemma_result_anchored(
    msgs: Seq<MessageView>,
    ms: Seq<int>,
    context: int,
    project: Seq<char>,
    max: int,
    results: Seq<ResultView>,
    k: int,
) -> (w: (int, int))
    requires
        forall|j: int| 0 <= j < ms.len() ==> 0 <= #[trigger] ms[j] < msgs.len(),
        context >= 0,
        results == spec_session_results(msgs, ms, context, project, max),
        0 <= k < results.len(),
    ensures
        spec_anchored_on(results[k], msgs, ms, w.0, w.1, context, project),
{
    let res = spec_session_results(msgs, ms, context, project, max);
    let prod = spec_producing(ms, context, msgs.len() as int, max);
    lemma_producing_props(ms, context, msgs.len() as int, max);
    let j = prod[k];
    let m = ms[j];
    let rng = spec_context_range(m, context, msgs.len() as int);
    let o = m - rng.0;
    let r = res[k];
    assert(r == spec_result_for(msgs, ms, m, context, project));
    assert forall|i: int| 0 <= i < r.match_context.len() implies {
        let c = #[trigger] r.match_context[i];
        &&& c.role == msgs[m - o + i].role
        &&& c.text == msgs[m - o + i].text
        &&& c.timestamp == msgs[m - o + i].timestamp
        &&& c.matched == ms.contains(m - o + i)
    } by {
        assert(m - o + i == rng.0 + i);
    }
    assert(spec_anchored_on(r, msgs, ms, j, o, context, project));
    (j, o)
}

fn is_match_index(matches: &[Match], i: usize) -> (r: bool)
    ensures
        r == match_indices(matches@).contains(i as int),
{
    let mut k: usize = 0;
    while k < matches.len()
        invariant
            k <= matches@.len(),
            forall|j: int| 0 <= j < k ==> (#[trigger] matches@[j]).message_index != i,
        decreases matches@.len() - k,
    {
        if matches[k].message_index == i {
            assert(match_indices(matches@)[k as int] == i as int);
            return true;
        }
        k += 1;
    }
    proof {
        if match_indices(matches@).contains(i as int) {
            let j = choose|j: int| 0 <= j < match_indices(matches@).len() && match_indices(matches@)[j] == i as int;
            assert(matches@[j].message_index == i);
        }
    }
    false
}

/// Result windows for the matches of one session: each producing match
/// (see [`spec_producing`]) yields the `context` messages around it.
pub fn build_session_result(
    messages: &[Message],
    matches: &[Match],
    context_size: usize,
    project_dir: &str,
    max_results: usize,
) -> (r: Vec<SessionResult>)
    requires
        forall|k: int| 0 <= k < matches@.len() ==> (#[trigger] matches@[k]).message_index < messages@.len(),
        forall|k: int| 0 <= k < matches@.len() ==> (#[trigger] matches@[k]).message_index + context_size + 1 <= usize::MAX,
    ensures
        result_views(r@) == spec_session_results(
            msg_views(messages@),
            match_indices(matches@),
            context_size as int,
            project_dir@,
            max_results as int,
        ),
        r@.len() <= matches@.len(),
        r@.len() <= max_results,
        forall|k: int| 0 <= k < r@.len() ==> spec_anchored(#[trigger] result_views(r@)[k], msg_views(messages@),
            match_indices(matches@), context_size as int, project_dir@),
{
    let ghost ms = match_indices(matches@);
    let ghost msgs = msg_views(messages@);
    let ghost ctx = context_size as int;
    let ghost total = messages@.len() as int;
    let ghost maxr = max_results as int;
    let mut seen_ranges: Vec<(usize, usize)> = Vec::new();
    let mut results: Vec<SessionResult> = Vec::new();
    let mut mi: usize = 0;
    while mi < matches.len()
        invariant
            mi <= matches@.len(),
            ms == match_indices(matches@),
            msgs == msg_views(messages@),
            ctx == context_size as int,
            total == messages@.len() as int,
            maxr == max_results as int,
            forall|k: int| 0 <= k < matches@.len() ==> (#[trigger] matches@[k]).message_index < messages@.len(),
            forall|k: int| 0 <= k < matches@.len() ==> (#[trigger] matches@[k]).message_index + context_size + 1 <= usize::MAX,
            ({
                let prod = spec_producing(ms.take(mi as int), ctx, total, maxr);
                &&& results@.len() == prod.len()
                &&& seen_ranges@.len() == prod.len()
                &&& forall|k: int| 0 <= k < prod.len() ==> ms.take(mi as int)[prod[k]] == ms[prod[k]]
                &&& forall|k: int| 0 <= k < prod.len() ==> (#[trigger] seen_ranges@[k]).0 as int
                    == spec_context_range(ms[prod[k]], ctx, total).0
                    && seen_ranges@[k].1 as int == spec_context_range(ms[prod[k]], ctx, total).1
                &&& forall|k: int| 0 <= k < prod.len() ==> (#[trigger] results@[k])@
                    == spec_result_for(msgs, ms, ms[prod[k]], ctx, project_dir@)
            }),
        decreases matches@.len() - mi,
    {
        let ghost prefix = ms.take(mi as int);
        let ghost next = ms.take(mi + 1);
        assert(next.drop_last() =~= prefix);
        assert(next.last() == ms[mi as int]);
        proof {
            lemma_producing_props(prefix, ctx, total, maxr);
        }
        if results.len() >= max_results {
            assert(spec_producing(next, ctx, total, maxr) == spec_producing(prefix, ctx, total, maxr));
            assert forall|k: int| 0 <= k < spec_producing(prefix, ctx, total, maxr).len()
                implies next[spec_producing(prefix, ctx, total, maxr)[k]] == ms[spec_producing(prefix, ctx, total, maxr)[k]] by {}
            mi += 1;
            continue;
        }
        let idx = matches[mi].message_index;
        let (start, end) = context_range(idx, context_size, messages.len());
        let ghost prod = spec_producing(prefix, ctx, total, maxr);
        let mut contained = false;
        let mut s: usize = 0;
        while s < seen_ranges.len()
            invariant
                s <= seen_ranges@.len(),
                seen_ranges@.len() == prod.len(),
                forall|k: int| 0 <= k < prod.len() ==> (#[trigger] seen_ranges@[k]).0 as int
                    == spec_context_range(ms[prod[k]], ctx, total).0
                    && seen_ranges@[k].1 as int == spec_context_range(ms[prod[k]], ctx, total).1,
                contained == exists|k: int| 0 <= k < s
                    && spec_within(spec_context_range(ms[mi as int], ctx, total), spec_context_range(ms[#[trigger] prod[k]], ctx, total)),
                start as int == spec_context_range(ms[mi as int], ctx, total).0,
                end as int == spec_context_range(ms[mi as int], ctx, total).1,
            decreases seen_ranges@.len() - s,
        {
            if start >= seen_ranges[s].0 && end <= seen_ranges[s].1 {
                contained = true;
            }
            s += 1;
        }
        assert(contained == exists|k: int| 0 <= k < prod.len()
            && spec_within(spec_context_range(ms[mi as int], ctx, total), spec_context_range(ms[#[trigger] prod[k]], ctx, total)));
        if contained {
            assert(spec_producing(next, ctx, total, maxr) == prod);
            mi += 1;
            continue;
        }
        seen_ranges.push((start, end));
        let mut window: Vec<ContextMessage> = Vec::new();
        let mut i = start;
        while i < end
            invariant
                start <= i <= end <= messages@.len(),
                msgs == msg_views(messages@),
                ms == match_indices(matches@),
                window@.len() == i - start,
                forall|q: int| 0 <= q < window@.len() ==> (#[trigger] window@[q])@
                    == spec_window(msgs, ms, start as int, end as int)[q],
            decreases end - i,
        {
            let matched = is_match_index(matches, i);
            window.push(ContextMessage {
                role: messages[i].role.clone(),
                text: messages[i].text.clone(),
                timestamp: messages[i].timestamp.clone(),
                matched,
            });
            assert(window@[i - start]@ == spec_window(msgs, ms, start as int, end as int)[i - start]);
            i += 1;
        }
        let res = SessionResult {
            session_id: messages[idx].session_id.clone(),
            project_dir: string_of(&chars_of(project_dir)),
            first_match_timestamp: messages[idx].timestamp.clone(),
            match_context: window,
        };
        assert(res@.match_context =~= spec_window(msgs, ms, start as int, end as int));
        results.push(res);
        let ghost nprod = spec_producing(next, ctx, total, maxr);
        assert(nprod == prod.push(mi as int));
        assert forall|k: int| 0 <= k < nprod.len() implies next[nprod[k]] == ms[nprod[k]] by {}
        mi += 1;
    }
    assert(ms.take(matches@.len() as int) =~= ms);
    assert(result_views(results@) =~= spec_session_results(msgs, ms, ctx, project_dir@, maxr));
    proof {
        assert forall|j: int| 0 <= j < ms.len() implies 0 <= #[trigger] ms[j] < msgs.len() by {
            assert(ms[j] == matches@[j].message_index as int);
        }
        lemma_results_anchor_on_matches(msgs, ms, ctx, project_dir@, maxr, result_views(results@));
    }
    results
}


/// Per-message text is truncated to this many characters in the text view.
/// Keeps the whole result set compact enough to be read inline.
pub const TEXT_MSG_CAP: usize = 800;

/// The trimmed text, cut to `cap` characters with a marker saying how many
/// characters were dropped.
pub open spec fn spec_truncate(s: Seq<char>, cap: int) -> Seq<char> {
    let t = spec_trim(s);
    if t.len() <= cap {
        t
    } else {
        t.take(cap) + "… [+"@ + spec_decimal((t.len() - cap) as nat) + " chars]"@
    }
}

/// Collapse to a tidy block: trim, then cap on a character boundary with a marker.
pub fn truncate(s: &str, cap: usize) -> (r: String)
    ensures
        r@ == spec_truncate(s@, cap as int),
{
    let c = chars_of(s);
    let t = trim_chars(&c);
    if t.len() <= cap {
        return string_of(&t);
    }
    let mut out = String::new();
    let mut i: usize = 0;
    while i < cap
        invariant
            i <= cap < t@.len(),
            out@ == t@.take(i as int),
        decreases cap - i,
    {
        push_char(&mut out, t[i]);
        assert(t@.take(i + 1) == t@.take(i as int).push(t@[i as int]));
        i += 1;
    }
    push_str(&mut out, "… [+");
    push_decimal(&mut out, t.len() - cap);
    push_str(&mut out, " chars]");
    out
}

/// `s` padded with spaces to at least `w` characters (`{:<w}`).
pub open spec fn spec_pad(s: Seq<char>, w: int) -> Seq<char> {
    if s.len() >= w {
        s
    } else {
        s + Seq::new((w - s.len()) as nat, |i: int| ' ')
    }
}

/// Continuation lines indented under the text column: every newline is
/// followed by eight spaces.
pub open spec fn spec_indent(s: Seq<char>) -> Seq<char>
    decreases s.len(),
{
    if s.len() == 0 {
        Seq::empty()
    } else {
        spec_indent(s.drop_last()) + if s.last() == '\n' { "\n        "@ } else { seq![s.last()] }
    }
}

/// One context line of the text view: match marker, role column, text.
pub open spec fn spec_context_line(m: ContextView) -> Seq<char> {
    "  "@ + (if m.matched { "»"@ } else { " "@ }) + " "@ + spec_pad(m.role, 9) + " "@
        + spec_indent(spec_truncate(m.text, TEXT_MSG_CAP as int)) + "\n"@
}

/// The context lines of the first `n` messages of a window.
pub open spec fn spec_context_lines(ms: Seq<ContextView>, n: int) -> Seq<char>
    decreases n,
{
    if n <= 0 || n > ms.len() {
        Seq::empty()
    } else {
        spec_context_lines(ms, n - 1) + spec_context_line(ms[n - 1])
    }
}

/// The block for the `i`-th result (counting from zero).
pub open spec fn spec_result_block(i: int, r: ResultView) -> Seq<char> {
    "\n["@ + spec_decimal((i + 1) as nat) + "] "@ + r.session_id + " · "@ + r.project_dir + " · "@
        + r.first_match_timestamp + "\n"@ + spec_context_lines(r.match_context, r.match_context.len() as int)
}

/// The blocks of the first `n` results.
pub open spec fn spec_result_blocks(rs: Seq<ResultView>, n: int) -> Seq<char>
    decreases n,
{
    if n <= 0 || n > rs.len() {
        Seq::empty()
    } else {
        spec_result_blocks(rs, n - 1) + spec_result_block(n - 1, rs[n - 1])
    }
}

/// Text view of an error answer.
pub open spec fn spec_error_text(err: Seq<char>, query: Seq<char>) -> Seq<char> {
    "rrecall error: "@ + err + "\nquery: "@ + query + "\n"@
}

/// Header of the text view.
pub open spec fn spec_header(o: SearchOutput) -> Seq<char> {
    "rrecall · mode="@ + o.mode@ + " · scope_reached="@ + o.scope_reached@ + " · sessions_searched="@
        + spec_decimal(o.sessions_searched as nat) + " · hits="@ + spec_decimal(o.hit_count as nat)
        + "\nquery: "@ + o.query@ + "\n"@
}

/// What the text view says when there are no results.
pub open spec fn spec_no_matches() -> Seq<char> {
    "\nNo matches. The scope ladder already reached the reported scope — this is a query/ranking miss, not an index gap. Retry with different vocabulary, pin a rare AND-term, or add an after:/before: date range.\n"@
}

/// Closing line of the text view.
pub open spec fn spec_footer(o: SearchOutput) -> Seq<char> {
    "\n(scope_reached="@ + o.scope_reached@ + ", sessions_searched="@ + spec_decimal(o.sessions_searched as nat)
        + " — if the session you want isn't here, refine the query; do not search by other means.)\n"@
}

/// The compact text view of a search answer.
pub open spec fn spec_to_text(o: SearchOutput) -> Seq<char> {
    match o.error {
        Some(err) => spec_error_text(err@, o.query@),
        None => if o.results@.len() == 0 {
            spec_header(o) + spec_no_matches()
        } else {
            spec_header(o) + spec_result_blocks(result_views(o.results@), o.results@.len() as int) + spec_footer(o)
        },
    }
}

fn push_padded(out: &mut String, s: &str, w: usize)
    ensures
        final(out)@ == old(out)@ + spec_pad(s@, w as int),
{
    let c = chars_of(s);
    push_chars(out, &c);
    if c.len() < w {
        let ghost base = old(out)@ + s@;
        let mut k = c.len();
        while k < w
            invariant
                c.len() <= k <= w,
                out@ == base + Seq::new((k - c.len()) as nat, |i: int| ' '),
            decreases w - k,
        {
            push_char(out, ' ');
            assert(base + Seq::new((k + 1 - c.len()) as nat, |i: int| ' ')
                =~= base + Seq::new((k - c.len()) as nat, |i: int| ' ') + seq![' ']);
            k += 1;
        }
    }
}

fn push_indented(out: &mut String, s: &str)
    ensures
        final(out)@ == old(out)@ + spec_indent(s@),
{
    let c = chars_of(s);
    let ghost base = old(out)@;
    let mut i: usize = 0;
    while i < c.len()
        invariant
            i <= c@.len(),
            c@ == s@,
            out@ == base + spec_indent(c@.take(i as int)),
        decreases c@.len() - i,
    {
        assert(c@.take(i + 1).drop_last() =~= c@.take(i as int));
        if c[i] == '\n' {
            push_str(out, "\n        ");
        } else {
            push_char(out, c[i]);
        }
        assert(out@ =~= base + spec_indent(c@.take(i + 1)));
        i += 1;
    }
    assert(c@.take(c@.len() as int) =~= c@);
}

fn push_context_line(o: &mut String, m: &ContextMessage)
    ensures
        final(o)@ == old(o)@ + spec_context_line(m@),
{
    push_str(o, "  ");
    if m.matched {
        push_str(o, "»");
    } else {
        push_str(o, " ");
    }
    push_str(o, " ");
    push_padded(o, m.role.as_str(), 9);
    push_str(o, " ");
    let body = truncate(m.text.as_str(), TEXT_MSG_CAP);
    push_indented(o, body.as_str());
    push_str(o, "\n");
    assert(final(o)@ =~= old(o)@ + spec_context_line(m@));
}

fn push_result_block(o: &mut String, i: usize, r: &SessionResult)
    requires
        i + 1 < usize::MAX,
    ensures
        final(o)@ == old(o)@ + spec_result_block(i as int, r@),
{
    push_str(o, "\n[");
    push_decimal(o, i + 1);
    push_str(o, "] ");
    push_str(o, r.session_id.as_str());
    push_str(o, " · ");
    push_str(o, r.project_dir.as_str());
    push_str(o, " · ");
    push_str(o, r.first_match_timestamp.as_str());
    push_str(o, "\n");
    let ghost cs = r@.match_context;
    let ghost head = o@;
    let mut j: usize = 0;
    while j < r.match_context.len()
        invariant
            j <= cs.len(),
            cs == r.match_context@.map_values(|c: ContextMessage| c@),
            o@ == head + spec_context_lines(cs, j as int),
        decreases cs.len() - j,
    {
        let ghost mid = o@;
        push_context_line(o, &r.match_context[j]);
        assert(cs[j as int] == r.match_context@[j as int]@);
        assert(o@ =~= head + spec_context_lines(cs, j + 1));
        j += 1;
    }
    assert(final(o)@ =~= old(o)@ + spec_result_block(i as int, r@));
}

impl SearchOutput {
    /// Compact, human-readable rendering (see [`spec_to_text`]): complete
    /// enough to synthesise from directly, small enough not to spill.
    pub fn to_text(&self) -> (r: String)
        requires
            self.results@.len() < usize::MAX,
        ensures
            r@ == spec_to_text(*self),
    {
        let mut o = String::new();
        if let Some(err) = &self.error {
            push_str(&mut o, "rrecall error: ");
            push_str(&mut o, err.as_str());
            push_str(&mut o, "\nquery: ");
            push_str(&mut o, self.query.as_str());
            push_str(&mut o, "\n");
            return o;
        }
        push_str(&mut o, "rrecall · mode=");
        push_str(&mut o, self.mode.as_str());
        push_str(&mut o, " · scope_reached=");
        push_str(&mut o, self.scope_reached.as_str());
        push_str(&mut o, " · sessions_searched=");
        push_decimal(&mut o, self.sessions_searched);
        push_str(&mut o, " · hits=");
        push_decimal(&mut o, self.hit_count);
        push_str(&mut o, "\nquery: ");
        push_str(&mut o, self.query.as_str());
        push_str(&mut o, "\n");
        assert(o@ == spec_header(*self));
        if self.results.len() == 0 {
            push_str(&mut o, "\nNo matches. The scope ladder already reached the reported scope — \
                 this is a query/ranking miss, not an index gap. Retry with different \
                 vocabulary, pin a rare AND-term, or add an after:/before: date range.\n");
            return o;
        }
        let ghost rs = result_views(self.results@);
        let mut i: usize = 0;
        while i < self.results.len()
            invariant
                i <= self.results@.len() < usize::MAX,
                rs == result_views(self.results@),
                o@ == spec_header(*self) + spec_result_blocks(rs, i as int),
            decreases self.results@.len() - i,
        {
            let ghost before = o@;
            push_result_block(&mut o, i, &self.results[i]);
            assert(o@ =~= before + spec_result_block(i as int, rs[i as int]));
            i += 1;
        }
        push_str(&mut o, "\n(scope_reached=");
        push_str(&mut o, self.scope_reached.as_str());
        push_str(&mut o, ", sessions_searched=");
        push_decimal(&mut o, self.sessions_searched);
        push_str(&mut o, " — if the session you want isn't here, \
             refine the query; do not search by other means.)\n");
        o
    }

    /// An answer that reports an error and nothing else.
    pub fn error(query: &str, msg: &str) -> (o: Self)
        ensures
            o.query@ == query@,
            o.sessions_searched == 0,
            o.scope_reached@ == "none"@,
            o.hit_count == 0,
            o.mode@ == "none"@,
            o.results@.len() == 0,
            o.error matches Some(e) && e@ == msg@,
    {
        SearchOutput {
            query: string_of(&chars_of(query)),
            sessions_searched: 0,
            scope_reached: string_of(&chars_of("none")),
            hit_count: 0,
            mode: string_of(&chars_of("none")),
            results: Vec::new(),
            error: Some(string_of(&chars_of(msg))),
        }
    }
}

} // verus!
