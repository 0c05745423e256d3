//! Overlapping message windows, the unit that gets embedded.
use vstd::prelude::*;
use crate::parser::{Message, MessageView};
use crate::text::{push_str, spec_join, lemma_join_push};

verus! {

/// A small window of a session.
#[derive(Debug, Clone)]
pub struct Chunk {
    pub text: String,
    pub offset: usize,
    pub timestamp: String,
}

/// Window size in messages.
pub const WINDOW: usize = 3;

/// Step between window starts (overlap = WINDOW - STEP).
pub const STEP: usize = 2;

/// `role: text`, one message as it appears in a window.
pub open spec fn spec_message_line(m: MessageView) -> Seq<char> {
    m.role + ": "@ + m.text
}

/// The lines of `msgs[start..end]`.
pub open spec fn spec_window_lines(msgs: Seq<MessageView>, start: int, end: int) -> Seq<Seq<char>> {
    msgs.subrange(start, end).map_values(|m: MessageView| spec_message_line(m))
}

/// The text of the window `msgs[start..end]`: its lines joined by newlines.
pub open spec fn spec_window_text(msgs: Seq<MessageView>, start: int, end: int) -> Seq<char> {
    spec_join(spec_window_lines(msgs, start, end), "\n"@)
}

/// Number of windows of a session of `n` messages: windows start every
/// `STEP` messages until one reaches the last message.
pub open spec fn spec_chunk_count(n: nat) -> nat {
    if n == 0 {
        0
    } else if n / 2 < 1 {
        1
    } else {
        n / 2
    }
}

/// End (exclusive) of the window that starts at `start`.
pub open spec fn spec_window_end(n: nat, start: int) -> int {
    if start + WINDOW < n { start + WINDOW } else { n as int }
}

/// Whether `c` is the window of `msgs` that starts at `start`.
pub open spec fn spec_is_window(c: Chunk, msgs: Seq<MessageView>, start: int) -> bool {
    &&& c.offset == start
    &&& c.text@ == spec_window_text(msgs, start, spec_window_end(msgs.len(), start))
    &&& c.timestamp@ == msgs[start].timestamp
}

fn window_text(messages: &[Message], start: usize, end: usize) -> (r: String)
    requires
        start < end <= messages@.len(),
    ensures
        r@ == spec_window_text(messages@.map_values(|m: Message| m@), start as int, end as int),
{
    let ghost msgs = messages@.map_values(|m: Message| m@);
    let mut out = String::new();
    let mut j = start;
    while j < end
        invariant
            start <= j <= end <= messages@.len(),
            msgs == messages@.map_values(|m: Message| m@),
            out@ == spec_window_text(msgs, start as int, j as int),
        decreases end - j,
    {
        let ghost prev = spec_window_lines(msgs, start as int, j as int);
        assert(spec_window_lines(msgs, start as int, j + 1) =~= prev.push(spec_message_line(msgs[j as int])));
        proof {
            lemma_join_push(prev, "\n"@, spec_message_line(msgs[j as int]));
        }
        if j > start {
            push_str(&mut out, "\n");
        }
        push_str(&mut out, messages[j].role.as_str());
        push_str(&mut out, ": ");
        push_str(&mut out, messages[j].text.as_str());
        assert(out@ =~= spec_window_text(msgs, start as int, j + 1));
        j += 1;
    }
    out
}

/// Split a session into overlapping windows of `WINDOW` messages, starting
/// every `STEP` messages, the last one reaching the final message.
pub fn chunk_session(messages: &[Message]) -> (chunks: Vec<Chunk>)
    ensures
        chunks@.len() == spec_chunk_count(messages@.len()),
        forall|k: int| 0 <= k < chunks@.len() ==>
            spec_is_window(#[trigger] chunks@[k], messages@.map_values(|m: Message| m@), STEP * k),
        forall|k: int| 0 <= k < chunks@.len() ==> {
            let c = #[trigger] chunks@[k];
            &&& c.offset < messages@.len()
            &&& c.timestamp@ == messages@[c.offset as int].timestamp@
        },
{
    let ghost msgs = messages@.map_values(|m: Message| m@);
    let n = messages.len();
    let mut chunks: Vec<Chunk> = Vec::new();
    if n == 0 {
        return chunks;
    }
    let mut i: usize = 0;
    loop
        invariant_except_break
            i < n,
            i == STEP * chunks@.len(),
            chunks@.len() == 0 || i + 1 < n,
        invariant
            n == messages@.len(),
            n > 0,
            msgs == messages@.map_values(|m: Message| m@),
            forall|k: int| 0 <= k < chunks@.len() ==> spec_is_window(#[trigger] chunks@[k], msgs, STEP * k),
        ensures
            chunks@.len() == spec_chunk_count(n as nat),
            forall|k: int| 0 <= k < chunks@.len() ==> spec_is_window(#[trigger] chunks@[k], msgs, STEP * k),
        decreases n - i,
    {
        let end = if i + WINDOW < n { i + WINDOW } else { n };
        let text = window_text(messages, i, end);
        let timestamp = messages[i].timestamp.clone();
        let ghost before = chunks@;
        chunks.push(Chunk { text, offset: i, timestamp });
        assert(spec_is_window(chunks@[before.len() as int], msgs, STEP * before.len()));
        assert(forall|k: int| 0 <= k < before.len() ==> chunks@[k] == before[k]);
        if end == n {
            break;
        }
        i = i + STEP;
    }
    proof {
        lemma_chunk_stamps(messages@, chunks@);
    }
    chunks
}

/// Each chunk of a session (as [`chunk_session`] returns them) starts at a
/// message of the session, its offset, and carries that message's
/// timestamp; offsets advance by `STEP` from 0.
pub proof fn lemma_chunk_stamps(messages: Seq<Message>, chunks: Seq<Chunk>)
    requires
        chunks.len() == spec_chunk_count(messages.len()),
        forall|k: int| 0 <= k < chunks.len() ==>
            spec_is_window(#[trigger] chunks[k], messages.map_values(|m: Message| m@), STEP * k),
    ensures
        forall|k: int| 0 <= k < chunks.len() ==> {
            let c = #[trigger] chunks[k];
            &&& c.offset < messages.len()
            &&& c.offset == STEP * k
            &&& c.timestamp@ == messages[c.offset as int].timestamp@
        },
{
    assert forall|k: int| 0 <= k < chunks.len() implies {
        let c = #[trigger] chunks[k];
        &&& c.offset < messages.len()
        &&& c.offset == STEP * k
        &&& c.timestamp@ == messages[c.offset as int].timestamp@
    } by {
        assert(spec_is_window(chunks[k], messages.map_values(|m: Message| m@), STEP * k));
        assert(STEP * k < messages.len());
    }
}

/// Every message of a session lies inside some window.
pub proof fn lemma_windows_cover(n: nat, j: int)
    requires
        0 <= j < n,
    ensures
        exists|k: int| 0 <= k < spec_chunk_count(n) &&
            STEP * k <= j < #[trigger] spec_window_end(n, STEP * k),
{
    let k = if j < 2 { 0 } else if j / 2 < spec_chunk_count(n) { (j - 1) / 2 } else { spec_chunk_count(n) - 1 };
    assert(0 <= k < spec_chunk_count(n) && STEP * k <= j < spec_window_end(n, STEP * k));
}

/// Consecutive windows share `WINDOW - STEP` messages.
pub proof fn lemma_windows_overlap(n: nat, k: int)
    requires
        0 <= k,
        k + 1 < spec_chunk_count(n),
    ensures
        spec_window_end(n, STEP * k) - STEP * (k + 1) == WINDOW - STEP,
{
}

} // verus!
