//! Transcript lines to messages.
use vstd::prelude::*;
use crate::text::{chars_of, chars_equal, push_str, trim_chars, spec_trim, spec_join, lemma_join_push};
use crate::paths::{path_parent, path_file_name, spec_path_parent, spec_path_file_name};

verus! {

/// One conversation message.
#[derive(Debug, Clone)]
pub struct Message {
    pub role: String,
    pub text: String,
    pub timestamp: String,
    pub session_id: String,
}

/// The mathematical content of a [`Message`].
pub struct MessageView {
    pub role: Seq<char>,
    pub text: Seq<char>,
    pub timestamp: Seq<char>,
    pub session_id: Seq<char>,
}

impl View for Message {
    type V = MessageView;

    open spec fn view(&self) -> MessageView {
        MessageView {
            role: self.role@,
            text: self.text@,
            timestamp: self.timestamp@,
            session_id: self.session_id@,
        }
    }
}

/// A JSON document, as the parser reads one transcript line. A number is
/// kept as a bare marker: nothing here reads its value.
#[derive(Debug)]
pub enum Json {
    Null,
    Bool(bool),
    Number,
    Str(String),
    Array(Vec<Json>),
    Object(Vec<(String, Json)>),
}

/// One line of a transcript file: unreadable (not valid UTF-8, or a read
/// error), or its text.
pub enum SessionLine {
    Unreadable,
    Line { text: String },
}

/// The document `serde_json::from_str::<serde_json::Value>` reads from
/// `text`, carried over node for node, or `None` when it reports an error.
pub uninterp spec fn spec_parse_json(text: Seq<char>) -> Option<Json>;

/// The JSON value type of `serde_json`.
#[verifier::external_type_specification]
#[verifier::external_body]
pub struct ExJsonValue(serde_json::Value);

/// Carries one `serde_json` value over to [`Json`], node for node.
#[verifier::external_body]
fn json_of_value(v: &serde_json::Value) -> Json {
    match v {
        serde_json::Value::Null => Json::Null,
        serde_json::Value::Bool(b) => Json::Bool(*b),
        serde_json::Value::Number(_) => Json::Number,
        serde_json::Value::String(t) => Json::Str(t.clone()),
        serde_json::Value::Array(a) => Json::Array(a.iter().map(json_of_value).collect()),
        serde_json::Value::Object(o) => Json::Object(o.iter().map(|(k, x)| (k.clone(), json_of_value(x))).collect()),
    }
}

/// `serde_json::from_str::<serde_json::Value>`: the JSON document of one
/// transcript line, or `None` when the text is not valid JSON.
#[verifier::external_body]
fn parse_json_line(text: &str) -> (r: Option<Json>)
    ensures
        r == spec_parse_json(text@),
{
    serde_json::from_str::<serde_json::Value>(text).ok().map(|v| json_of_value(&v))
}

/// Index of the first member of `members` named `key`, searching from `i`.
pub open spec fn spec_member_from(members: Seq<(String, Json)>, key: Seq<char>, i: int) -> Option<int>
    decreases members.len() - i,
{
    if i < 0 || i >= members.len() {
        None
    } else if members[i].0@ == key {
        Some(i)
    } else {
        spec_member_from(members, key, i + 1)
    }
}

/// `Value::get(key)`: the member named `key` of an object.
pub open spec fn spec_get(j: Json, key: Seq<char>) -> Option<Json> {
    match j {
        Json::Object(members) => match spec_member_from(members@, key, 0) {
            Some(i) => Some(members@[i].1),
            None => None,
        },
        _ => None,
    }
}

/// `v.get(key).and_then(as_str)`: the string member named `key`.
pub open spec fn spec_get_str(j: Json, key: Seq<char>) -> Option<Seq<char>> {
    match spec_get(j, key) {
        Some(Json::Str(s)) => Some(s@),
        _ => None,
    }
}

/// The string member named `key`, or the empty text.
pub open spec fn spec_get_str_or_empty(j: Json, key: Seq<char>) -> Seq<char> {
    match spec_get_str(j, key) {
        Some(s) => s,
        None => Seq::empty(),
    }
}

fn find_member(members: &Vec<(String, Json)>, key: &str) -> (r: Option<usize>)
    ensures
        r matches Some(i) ==> spec_member_from(members@, key@, 0) == Some(i as int) && i < members@.len(),
        r is None ==> spec_member_from(members@, key@, 0) is None,
{
    let k = chars_of(key);
    let mut i: usize = 0;
    while i < members.len()
        invariant
            i <= members@.len(),
            k@ == key@,
            spec_member_from(members@, key@, 0) == spec_member_from(members@, key@, i as int),
        decreases members@.len() - i,
    {
        let name = chars_of(members[i].0.as_str());
        if chars_equal(&name, &k) {
            return Some(i);
        }
        i += 1;
    }
    None
}

/// `Value::get`.
pub fn json_get<'a>(j: &'a Json, key: &str) -> (r: Option<&'a Json>)
    ensures
        r matches Some(v) ==> spec_get(*j, key@) == Some(*v),
        r is None ==> spec_get(*j, key@) is None,
{
    match j {
        Json::Object(members) => match find_member(members, key) {
            Some(i) => Some(&members[i].1),
            None => None,
        },
        _ => None,
    }
}

/// `v.get(key).and_then(Value::as_str)`.
pub fn json_get_str<'a>(j: &'a Json, key: &str) -> (r: Option<&'a String>)
    ensures
        r matches Some(s) ==> spec_get_str(*j, key@) == Some(s@),
        r is None ==> spec_get_str(*j, key@) is None,
{
    match json_get(j, key) {
        Some(Json::Str(s)) => Some(s),
        _ => None,
    }
}


/// `[tool: <name>]`, the placeholder for a tool call in assistant text.
pub open spec fn spec_tool_marker(name: Seq<char>) -> Seq<char> {
    "[tool: "@ + name + "]"@
}

/// The text contributed by one content block: a `text` block's text, or, in
/// an assistant message, a `tool_use` block's tool name; other blocks
/// contribute nothing.
pub open spec fn spec_block_part(block: Json, msg_type: Seq<char>) -> Option<Seq<char>> {
    let bt = spec_get_str_or_empty(block, "type"@);
    if bt == "text"@ {
        spec_get_str(block, "text"@)
    } else if bt == "tool_use"@ && msg_type == "assistant"@ {
        match spec_get_str(block, "name"@) {
            Some(n) => Some(spec_tool_marker(n)),
            None => None,
        }
    } else {
        None
    }
}

/// The parts contributed by `blocks`, in order.
pub open spec fn spec_block_parts(blocks: Seq<Json>, msg_type: Seq<char>) -> Seq<Seq<char>>
    decreases blocks.len(),
{
    if blocks.len() == 0 {
        Seq::empty()
    } else {
        let rest = spec_block_parts(blocks.drop_last(), msg_type);
        match spec_block_part(blocks.last(), msg_type) {
            Some(p) => rest.push(p),
            None => rest,
        }
    }
}

/// The searchable text of a `message` object: a string `content` as is, an
/// array `content` as its block parts joined by newlines, otherwise empty.
pub open spec fn spec_extract_text(message: Json, msg_type: Seq<char>) -> Seq<char> {
    match spec_get(message, "content"@) {
        Some(Json::Str(s)) => s@,
        Some(Json::Array(blocks)) => spec_join(spec_block_parts(blocks@, msg_type), "\n"@),
        _ => Seq::empty(),
    }
}

fn block_part(block: &Json, msg_type: &str) -> (r: Option<String>)
    ensures
        r matches Some(p) ==> spec_block_part(*block, msg_type@) == Some(p@),
        r is None ==> spec_block_part(*block, msg_type@) is None,
{
    let bt = match json_get_str(block, "type") {
        Some(t) => chars_of(t.as_str()),
        None => Vec::new(),
    };
    assert(bt@ == spec_get_str_or_empty(*block, "type"@));
    let text_kw = chars_of("text");
    let tool_kw = chars_of("tool_use");
    let assistant_kw = chars_of("assistant");
    let mt = chars_of(msg_type);
    if chars_equal(&bt, &text_kw) {
        match json_get_str(block, "text") {
            Some(t) => Some(t.clone()),
            None => None,
        }
    } else if chars_equal(&bt, &tool_kw) && chars_equal(&mt, &assistant_kw) {
        match json_get_str(block, "name") {
            Some(n) => {
                let mut out = String::new();
                push_str(&mut out, "[tool: ");
                push_str(&mut out, n.as_str());
                push_str(&mut out, "]");
                Some(out)
            },
            None => None,
        }
    } else {
        None
    }
}

/// Text of a transcript `message` object (see [`spec_extract_text`]).
pub fn extract_text(message: &Json, msg_type: &str) -> (r: String)
    ensures
        r@ == spec_extract_text(*message, msg_type@),
{
    let content = match json_get(message, "content") {
        Some(c) => c,
        None => return String::new(),
    };
    match content {
        Json::Str(s) => s.clone(),
        Json::Array(blocks) => {
            let mut out = String::new();
            let mut none_yet = true;
            let ghost mut parts: Seq<Seq<char>> = Seq::empty();
            let mut i: usize = 0;
            while i < blocks.len()
                invariant
                    i <= blocks@.len(),
                    parts == spec_block_parts(blocks@.take(i as int), msg_type@),
                    none_yet == (parts.len() == 0),
                    out@ == spec_join(parts, "\n"@),
                decreases blocks@.len() - i,
            {
                assert(blocks@.take(i + 1).drop_last() =~= blocks@.take(i as int));
                match block_part(&blocks[i], msg_type) {
                    Some(p) => {
                        proof {
                            lemma_join_push(parts, "\n"@, p@);
                        }
                        if !none_yet {
                            push_str(&mut out, "\n");
                        }
                        push_str(&mut out, p.as_str());
                        proof {
                            parts = parts.push(p@);
                        }
                        none_yet = false;
                    },
                    None => {},
                }
                i += 1;
            }
            assert(blocks@.take(blocks@.len() as int) =~= blocks@);
            out
        },
        _ => String::new(),
    }
}

/// The session a transcript file belongs to when it is a sub-agent log:
/// for `<dir>/<session>/subagents/<file>`, the `<session>` name.
pub open spec fn spec_parent_session_id(p: Seq<char>) -> Option<Seq<char>> {
    match spec_path_parent(p) {
        None => None,
        Some(parent) => match spec_path_file_name(parent) {
            None => None,
            Some(n) => if n != "subagents"@ {
                None
            } else {
                match spec_path_parent(parent) {
                    None => None,
                    Some(gp) => spec_path_file_name(gp),
                }
            },
        },
    }
}

/// Parent session of a sub-agent transcript path (see [`spec_parent_session_id`]).
pub fn parent_session_id(path: &str) -> (r: Option<String>)
    ensures
        r matches Some(s) ==> spec_parent_session_id(path@) == Some(s@),
        r is None ==> spec_parent_session_id(path@) is None,
{
    let parent = match path_parent(path) {
        Some(p) => p,
        None => return None,
    };
    let name = match path_file_name(parent.as_str()) {
        Some(n) => n,
        None => return None,
    };
    let n = chars_of(name.as_str());
    let sub = chars_of("subagents");
    if !chars_equal(&n, &sub) {
        return None;
    }
    let grandparent = match path_parent(parent.as_str()) {
        Some(g) => g,
        None => return None,
    };
    path_file_name(grandparent.as_str())
}


/// The message one transcript line yields, if any: a readable, non-blank,
/// well-formed `user` or `assistant` record whose `message` has non-empty
/// text. The session id is `override_id` when given, else the record's
/// `sessionId`; missing string fields read as empty.
pub open spec fn spec_line_message(line: SessionLine, override_id: Option<Seq<char>>) -> Option<MessageView> {
    match line {
        SessionLine::Unreadable => None,
        SessionLine::Line { text } => {
            if spec_trim(text@).len() == 0 {
                None
            } else {
                match spec_parse_json(text@) {
                    None => None,
                    Some(val) => spec_record_message(val, override_id),
                }
            }
        },
    }
}

/// The message a JSON record yields, if any (see [`spec_line_message`]).
pub open spec fn spec_record_message(val: Json, override_id: Option<Seq<char>>) -> Option<MessageView> {
    let t = spec_get_str_or_empty(val, "type"@);
    if t != "user"@ && t != "assistant"@ {
        None
    } else {
        match spec_get(val, "message"@) {
            None => None,
            Some(m) => {
                let body = spec_extract_text(m, t);
                if body.len() == 0 {
                    None
                } else {
                    Some(MessageView {
                        role: t,
                        text: body,
                        timestamp: spec_get_str_or_empty(val, "timestamp"@),
                        session_id: match override_id {
                            Some(o) => o,
                            None => spec_get_str_or_empty(val, "sessionId"@),
                        },
                    })
                }
            },
        }
    }
}

/// Whether a line counts as malformed: unreadable, or non-blank text that
/// is not valid JSON.
pub open spec fn spec_line_malformed(line: SessionLine) -> bool {
    match line {
        SessionLine::Unreadable => true,
        SessionLine::Line { text } => spec_trim(text@).len() != 0 && spec_parse_json(text@) is None,
    }
}

/// The messages of a transcript, in line order.
pub open spec fn spec_session_messages(lines: Seq<SessionLine>, override_id: Option<Seq<char>>) -> Seq<MessageView>
    decreases lines.len(),
{
    if lines.len() == 0 {
        Seq::empty()
    } else {
        let rest = spec_session_messages(lines.drop_last(), override_id);
        match spec_line_message(lines.last(), override_id) {
            Some(m) => rest.push(m),
            None => rest,
        }
    }
}

/// How many lines of a transcript are malformed.
pub open spec fn spec_malformed_count(lines: Seq<SessionLine>) -> nat
    decreases lines.len(),
{
    if lines.len() == 0 {
        0
    } else {
        spec_malformed_count(lines.drop_last()) + if spec_line_malformed(lines.last()) { 1nat } else { 0nat }
    }
}

proof fn lemma_malformed_bounded(lines: Seq<SessionLine>)
    ensures
        spec_malformed_count(lines) <= lines.len(),
    decreases lines.len(),
{
    if lines.len() > 0 {
        lemma_malformed_bounded(lines.drop_last());
    }
}

/// What a transcript yields: at most one message or one malformed count
/// per line; every message is a `user` or `assistant` record with
/// non-empty text; with an override (a sub-agent transcript) every message
/// carries the overriding session id.
pub proof fn lemma_session_messages_props(lines: Seq<SessionLine>, override_id: Option<Seq<char>>)
    ensures
        spec_session_messages(lines, override_id).len() + spec_malformed_count(lines) <= lines.len(),
        forall|k: int| 0 <= k < spec_session_messages(lines, override_id).len() ==> {
            let m = #[trigger] spec_session_messages(lines, override_id)[k];
            &&& (m.role == "user"@ || m.role == "assistant"@)
            &&& m.text.len() > 0
            &&& (override_id matches Some(o) ==> m.session_id == o)
        },
    decreases lines.len(),
{
    if lines.len() > 0 {
        lemma_session_messages_props(lines.drop_last(), override_id);
        let line = lines.last();
        match spec_line_message(line, override_id) {
            Some(m) => {
                assert(!spec_line_malformed(line));
                assert(m.role == "user"@ || m.role == "assistant"@);
            },
            None => {},
        }
    }
}

fn record_message(val: &Json, override_id: &Option<String>) -> (r: Option<Message>)
    ensures
        r matches Some(m) ==> spec_record_message(*val, opt_view(*override_id)) == Some(m@),
        r is None ==> spec_record_message(*val, opt_view(*override_id)) is None,
{
    let msg_type = match json_get_str(val, "type") {
        Some(t) => t.clone(),
        None => String::new(),
    };
    let mt = chars_of(msg_type.as_str());
    let user_kw = chars_of("user");
    let assistant_kw = chars_of("assistant");
    if !chars_equal(&mt, &user_kw) && !chars_equal(&mt, &assistant_kw) {
        return None;
    }
    let session_id = match override_id {
        Some(o) => o.clone(),
        None => match json_get_str(val, "sessionId") {
            Some(s) => s.clone(),
            None => String::new(),
        },
    };
    let timestamp = match json_get_str(val, "timestamp") {
        Some(s) => s.clone(),
        None => String::new(),
    };
    let message = match json_get(val, "message") {
        Some(m) => m,
        None => return None,
    };
    let body = extract_text(message, msg_type.as_str());
    if body.as_str().is_empty() {
        return None;
    }
    Some(Message { role: msg_type, text: body, timestamp, session_id })
}

/// The view of an optional string.
pub open spec fn opt_view(o: Option<String>) -> Option<Seq<char>> {
    match o {
        Some(s) => Some(s@),
        None => None,
    }
}

/// Messages of a transcript (see [`spec_session_messages`]) and the number
/// of malformed lines. A sub-agent transcript (see
/// [`spec_parent_session_id`]) attributes its messages to the parent session.
pub fn parse_session(path: &str, lines: &Vec<SessionLine>) -> (r: (Vec<Message>, usize))
    ensures
        r.0@.map_values(|m: Message| m@) == spec_session_messages(lines@, spec_parent_session_id(path@)),
        r.1 == spec_malformed_count(lines@),
{
    let override_id = parent_session_id(path);
    parse_session_inner(lines, &override_id)
}

/// Messages of a transcript (see [`spec_session_messages`]), each
/// attributed to `override_session_id` when one is given, and the number of
/// malformed lines.
pub fn parse_session_inner(lines: &Vec<SessionLine>, override_session_id: &Option<String>) -> (r: (Vec<Message>, usize))
    ensures
        r.0@.map_values(|m: Message| m@) == spec_session_messages(lines@, opt_view(*override_session_id)),
        r.1 == spec_malformed_count(lines@),
{
    let override_id = override_session_id;
    let ghost ov = opt_view(*override_session_id);
    let mut messages: Vec<Message> = Vec::new();
    let mut malformed: usize = 0;
    let mut i: usize = 0;
    while i < lines.len()
        invariant
            i <= lines@.len(),
            opt_view(*override_id) == ov,
            messages@.map_values(|m: Message| m@) == spec_session_messages(lines@.take(i as int), ov),
            malformed == spec_malformed_count(lines@.take(i as int)),
        decreases lines@.len() - i,
    {
        assert(lines@.take(i + 1).drop_last() =~= lines@.take(i as int));
        proof {
            lemma_malformed_bounded(lines@.take(i + 1));
        }
        let found = match &lines[i] {
            SessionLine::Unreadable => {
                malformed += 1;
                None
            },
            SessionLine::Line { text } => {
                let tc = chars_of(text.as_str());
                let trimmed = trim_chars(&tc);
                if trimmed.len() == 0 {
                    None
                } else {
                    match parse_json_line(text.as_str()) {
                        None => {
                            malformed += 1;
                            None
                        },
                        Some(val) => record_message(&val, override_id),
                    }
                }
            },
        };
        match found {
            Some(m) => {
                let ghost before = messages@;
                messages.push(m);
                assert(messages@.map_values(|m: Message| m@) =~= before.map_values(|m: Message| m@).push(m@));
            },
            None => {},
        }
        i += 1;
    }
    assert(lines@.take(lines@.len() as int) =~= lines@);
    (messages, malformed)
}

} // verus!
