//! Query language: field filters plus a Lucene-style boolean expression,
//! evaluated against lowercased session text.
use vstd::prelude::*;
use tantivy_query_grammar::{UserInputAst, UserInputLeaf};
use crate::text::{chars_of, chars_equal, contains_chars, lowercase, push_str, trim_chars, string_of,
    spec_contains, spec_lowercase, spec_trim, spec_join, lemma_join_push};

verus! {

/// Field filters pulled out of a raw query.
#[derive(Debug, PartialEq)]
pub struct Filters {
    /// `user` or `assistant`.
    pub role: Option<String>,
    /// Substring of the project dir name.
    pub project: Option<String>,
    /// ISO date `YYYY-MM-DD`.
    pub after: Option<String>,
    /// ISO date `YYYY-MM-DD`.
    pub before: Option<String>,
}

/// The mathematical content of [`Filters`].
pub struct FiltersView {
    pub role: Option<Seq<char>>,
    pub project: Option<Seq<char>>,
    pub after: Option<Seq<char>>,
    pub before: Option<Seq<char>>,
}

/// The view of an optional string.
pub open spec fn opt_str(o: Option<String>) -> Option<Seq<char>> {
    match o {
        Some(s) => Some(s@),
        None => None,
    }
}

impl View for Filters {
    type V = FiltersView;

    open spec fn view(&self) -> FiltersView {
        FiltersView {
            role: opt_str(self.role),
            project: opt_str(self.project),
            after: opt_str(self.after),
            before: opt_str(self.before),
        }
    }
}

/// No filter set.
pub open spec fn spec_no_filters() -> FiltersView {
    FiltersView { role: None, project: None, after: None, before: None }
}

impl Default for Filters {
    fn default() -> (f: Self)
        ensures
            f@ == spec_no_filters(),
    {
        Filters { role: None, project: None, after: None, before: None }
    }
}

/// How a clause member takes part in its clause.
#[derive(Debug, Clone, Copy, PartialEq, Eq)]
pub enum Occur {
    Should,
    Must,
    MustNot,
}

/// A leaf of a query: a literal phrase, the match-everything leaf, a
/// regular expression, or a kind of leaf this library does not evaluate
/// (range, set, existence).
#[derive(Debug)]
pub enum QueryLeaf {
    Literal(String),
    All,
    Regex(String),
    Other,
}

/// A parsed boolean query.
#[derive(Debug)]
pub enum QueryAst {
    Clause(Vec<(Option<Occur>, QueryAst)>),
    Boost(Box<QueryAst>),
    Leaf(Box<QueryLeaf>),
}

/// The query `tantivy_query_grammar::parse_query` reads from `text`, or
/// `None` when it reports a syntax error.
pub uninterp spec fn spec_parse_query(text: Seq<char>) -> Option<QueryAst>;

/// The pieces of `text` between the matches of the regular expression
/// `pattern` (`Regex::new(pattern)` then `Regex::split`), or `None` when the
/// pattern does not compile.
pub uninterp spec fn spec_regex_split(pattern: Seq<char>, text: Seq<char>) -> Option<Seq<Seq<char>>>;

/// For each successive non-overlapping match of `pattern` in `text`, the
/// text of capture groups 1 and 2 (`None` for a group that did not take
/// part); `None` when the pattern does not compile.
pub uninterp spec fn spec_regex_groups(pattern: Seq<char>, text: Seq<char>) -> Option<Seq<(Option<Seq<char>>, Option<Seq<char>>)>>;

/// Whether `pattern` matches somewhere in `text` (`Regex::is_match`), or
/// `None` when the pattern does not compile.
pub uninterp spec fn spec_regex_is_match(pattern: Seq<char>, text: Seq<char>) -> Option<bool>;

/// `tantivy_query_grammar::parse_query`, with its syntax tree carried over
/// node for node (boost factors are dropped; nothing here reads them).
#[verifier::external_body]
fn parse_query_ast(text: &str) -> (r: Option<QueryAst>)
    ensures
        r == spec_parse_query(text@),
{
    tantivy_query_grammar::parse_query(text).ok().map(|ast| lower_user_input(&ast))
}

/// The syntax tree type of `tantivy_query_grammar`.
#[verifier::external_type_specification]
#[verifier::external_body]
pub struct ExUserInputAst(UserInputAst);

/// Carries one `tantivy_query_grammar` syntax tree over to [`QueryAst`],
/// node for node.
#[verifier::external_body]
fn lower_user_input(ast: &UserInputAst) -> QueryAst {
    match ast {
        UserInputAst::Clause(children) => QueryAst::Clause(children.iter().map(|(o, c)| (o.map(|o| match o {
            tantivy_query_grammar::Occur::Should => Occur::Should,
            tantivy_query_grammar::Occur::Must => Occur::Must,
            tantivy_query_grammar::Occur::MustNot => Occur::MustNot,
        }), lower_user_input(c))).collect()),
        UserInputAst::Boost(inner, _) => QueryAst::Boost(Box::new(lower_user_input(inner))),
        UserInputAst::Leaf(leaf) => QueryAst::Leaf(Box::new(match leaf.as_ref() {
            UserInputLeaf::Literal(lit) => QueryLeaf::Literal(lit.phrase.clone()),
            UserInputLeaf::All => QueryLeaf::All,
            UserInputLeaf::Regex { pattern, .. } => QueryLeaf::Regex(pattern.clone()),
            _ => QueryLeaf::Other,
        })),
    }
}

/// `Regex::new(pattern)` then `Regex::split(text)`, the pieces collected in order.
#[verifier::external_body]
fn regex_split(pattern: &str, text: &str) -> (r: Option<Vec<String>>)
    ensures
        r matches Some(v) ==> spec_regex_split(pattern@, text@) == Some(v@.map_values(|s: String| s@)),
        r is None <==> spec_regex_split(pattern@, text@) is None,
{
    let re = regex::Regex::new(pattern).ok()?;
    Some(re.split(text).map(|p| p.to_string()).collect())
}

/// `Regex::new(pattern)` then `Regex::captures_iter(text)`, keeping groups 1 and 2.
#[verifier::external_body]
fn regex_groups(pattern: &str, text: &str) -> (r: Option<Vec<(Option<String>, Option<String>)>>)
    ensures
        r matches Some(v) ==> spec_regex_groups(pattern@, text@) == Some(
            v@.map_values(|g: (Option<String>, Option<String>)| (opt_str(g.0), opt_str(g.1))),
        ),
        r is None <==> spec_regex_groups(pattern@, text@) is None,
{
    let re = regex::Regex::new(pattern).ok()?;
    Some(re.captures_iter(text).map(|c| (
        c.get(1).map(|m| m.as_str().to_string()),
        c.get(2).map(|m| m.as_str().to_string()),
    )).collect())
}

/// `Regex::new(pattern)` then `Regex::is_match(text)`.
#[verifier::external_body]
fn regex_is_match(pattern: &str, text: &str) -> (r: Option<bool>)
    ensures
        r == spec_regex_is_match(pattern@, text@),
{
    regex::Regex::new(pattern).ok().map(|re| re.is_match(text))
}


/// Field filter tokens: `role:`, `project:`, `after:` or `before:` (any
/// case) at a word boundary, followed by a value of word characters and
/// `-./@`.
pub const FILTER_PATTERN: &'static str = "(?i)\\b(role|project|after|before):([-\\w./@]+)";

/// The text of a capture group that may not have taken part.
pub open spec fn spec_group_text(g: Option<Seq<char>>) -> Seq<char> {
    match g {
        Some(s) => s,
        None => Seq::empty(),
    }
}

/// `f` updated by one `key:value` token; the key is compared lowercased and
/// a role value is lowercased.
pub open spec fn spec_apply_filter(f: FiltersView, key: Seq<char>, val: Seq<char>) -> FiltersView {
    let k = spec_lowercase(key);
    if k == "role"@ {
        FiltersView { role: Some(spec_lowercase(val)), project: f.project, after: f.after, before: f.before }
    } else if k == "project"@ {
        FiltersView { role: f.role, project: Some(val), after: f.after, before: f.before }
    } else if k == "after"@ {
        FiltersView { role: f.role, project: f.project, after: Some(val), before: f.before }
    } else if k == "before"@ {
        FiltersView { role: f.role, project: f.project, after: f.after, before: Some(val) }
    } else {
        f
    }
}

/// The filters set by a run of tokens, applied in order: the last
/// occurrence of a key wins.
pub open spec fn spec_filters_of(groups: Seq<(Option<Seq<char>>, Option<Seq<char>>)>) -> FiltersView
    decreases groups.len(),
{
    if groups.len() == 0 {
        spec_no_filters()
    } else {
        spec_apply_filter(
            spec_filters_of(groups.drop_last()),
            spec_group_text(groups.last().0),
            spec_group_text(groups.last().1),
        )
    }
}

/// Filters of a raw query, and the residual query: the raw text with every
/// filter token removed, trimmed. Should the filter pattern not compile,
/// nothing is extracted and the residual is the trimmed raw text.
pub open spec fn spec_extract_filters(raw: Seq<char>) -> (FiltersView, Seq<char>) {
    match (spec_regex_groups(FILTER_PATTERN@, raw), spec_regex_split(FILTER_PATTERN@, raw)) {
        (Some(g), Some(p)) => (spec_filters_of(g), spec_trim(spec_join(p, Seq::empty()))),
        _ => (spec_no_filters(), spec_trim(raw)),
    }
}

fn trimmed(s: &str) -> (r: String)
    ensures
        r@ == spec_trim(s@),
{
    let c = chars_of(s);
    let t = trim_chars(&c);
    string_of(&t)
}

/// Strip `role:`/`project:`/`after:`/`before:` tokens from `raw`, returning
/// the extracted filters and the residual query (Lucene boolean expression).
pub fn extract_filters(raw: &str) -> (r: (Filters, String))
    ensures
        r.0@ == spec_extract_filters(raw@).0,
        r.1@ == spec_extract_filters(raw@).1,
{
    let groups = regex_groups(FILTER_PATTERN, raw);
    let pieces = regex_split(FILTER_PATTERN, raw);
    match (groups, pieces) {
        (Some(g), Some(p)) => apply_filter_matches(&g, &p),
        _ => (Filters::default(), trimmed(raw)),
    }
}

/// The filters set by the filter tokens found in a query (capture groups
/// 1 and 2 of each match, in order; the last occurrence of a key wins) and
/// the residual query: the text between the tokens, joined and trimmed.
pub fn apply_filter_matches(groups: &Vec<(Option<String>, Option<String>)>, pieces: &Vec<String>) -> (r: (Filters, String))
    ensures
        r.0@ == spec_filters_of(groups@.map_values(|g: (Option<String>, Option<String>)| (opt_str(g.0), opt_str(g.1)))),
        r.1@ == spec_trim(spec_join(strs(pieces@), Seq::empty())),
{
    let ghost gv = groups@.map_values(|g: (Option<String>, Option<String>)| (opt_str(g.0), opt_str(g.1)));
    let ghost pv = pieces@.map_values(|s: String| s@);
    let role_kw = chars_of("role");
    let project_kw = chars_of("project");
    let after_kw = chars_of("after");
    let before_kw = chars_of("before");
    let mut filters = Filters::default();
    let mut i: usize = 0;
    while i < groups.len()
        invariant
            i <= groups@.len(),
            gv == groups@.map_values(|g: (Option<String>, Option<String>)| (opt_str(g.0), opt_str(g.1))),
            role_kw@ == "role"@,
            project_kw@ == "project"@,
            after_kw@ == "after"@,
            before_kw@ == "before"@,
            filters@ == spec_filters_of(gv.take(i as int)),
        decreases groups@.len() - i,
    {
        assert(gv.take(i + 1).drop_last() =~= gv.take(i as int));
        let key = match &groups[i].0 {
            Some(k) => k.clone(),
            None => String::new(),
        };
        let val = match &groups[i].1 {
            Some(v) => v.clone(),
            None => String::new(),
        };
        let k = chars_of(lowercase(key.as_str()).as_str());
        if chars_equal(&k, &role_kw) {
            filters.role = Some(lowercase(val.as_str()));
        } else if chars_equal(&k, &project_kw) {
            filters.project = Some(val);
        } else if chars_equal(&k, &after_kw) {
            filters.after = Some(val);
        } else if chars_equal(&k, &before_kw) {
            filters.before = Some(val);
        }
        i += 1;
    }
    assert(gv.take(gv.len() as int) =~= gv);
    let mut joined = String::new();
    let mut j: usize = 0;
    while j < pieces.len()
        invariant
            j <= pieces@.len(),
            pv == pieces@.map_values(|s: String| s@),
            joined@ == spec_join(pv.take(j as int), Seq::empty()),
        decreases pieces@.len() - j,
    {
        assert(pv.take(j + 1) =~= pv.take(j as int).push(pv[j as int]));
        proof {
            lemma_join_push(pv.take(j as int), Seq::empty(), pv[j as int]);
        }
        push_str(&mut joined, pieces[j].as_str());
        assert(joined@ =~= spec_join(pv.take(j + 1), Seq::empty()));
        j += 1;
    }
    assert(pv.take(pv.len() as int) =~= pv);
    (filters, trimmed(joined.as_str()))
}


/// The views of a vector of strings.
pub open spec fn strs(v: Seq<String>) -> Seq<Seq<char>> {
    v.map_values(|s: String| s@)
}

/// How a member without an explicit occurrence takes part: `Should`.
pub open spec fn spec_occur(o: Option<Occur>) -> Occur {
    match o {
        Some(x) => x,
        None => Occur::Should,
    }
}

/// The lowercased literal phrases of `ast` that are not under a `MustNot`
/// (a negated subtree contributes nothing), in tree order.
pub open spec fn spec_positive(ast: QueryAst, negated: bool) -> Seq<Seq<char>>
    decreases ast, 0nat,
{
    match ast {
        QueryAst::Leaf(leaf) => match *leaf {
            QueryLeaf::Literal(phrase) => if negated { Seq::empty() } else { seq![spec_lowercase(phrase@)] },
            _ => Seq::empty(),
        },
        QueryAst::Boost(inner) => spec_positive(*inner, negated),
        QueryAst::Clause(children) => spec_positive_members(children@, negated, children@.len() as int),
    }
}

/// The positive phrases of the first `n` members of a clause.
pub open spec fn spec_positive_members(children: Seq<(Option<Occur>, QueryAst)>, negated: bool, n: int) -> Seq<Seq<char>>
    decreases children, n,
{
    if n <= 0 || n > children.len() {
        Seq::empty()
    } else {
        spec_positive_members(children, negated, n - 1)
            + spec_positive(children[n - 1].1, negated || children[n - 1].0 == Some(Occur::MustNot))
    }
}

fn collect_positive(ast: &QueryAst, negated: bool, out: &mut Vec<String>)
    ensures
        strs(final(out)@) == strs(old(out)@) + spec_positive(*ast, negated),
    decreases ast,
{
    match ast {
        QueryAst::Leaf(leaf) => {
            if !negated {
                if let QueryLeaf::Literal(phrase) = &**leaf {
                    let ghost before = out@;
                    out.push(lowercase(phrase.as_str()));
                    assert(strs(out@) =~= strs(before) + spec_positive(*ast, negated));
                    return;
                }
            }
            assert(spec_positive(*ast, negated) =~= Seq::empty());
            assert(strs(out@) =~= strs(out@) + spec_positive(*ast, negated));
        },
        QueryAst::Boost(inner) => collect_positive(inner, negated, out),
        QueryAst::Clause(children) => {
            let ghost start = strs(out@);
            let mut i: usize = 0;
            assert(start =~= start + spec_positive_members(children@, negated, 0));
            while i < children.len()
                invariant
                    i <= children@.len(),
                    strs(out@) == start + spec_positive_members(children@, negated, i as int),
                    *ast == QueryAst::Clause(*children),
                decreases children@.len() - i,
            {
                let child_negated = match children[i].0 {
                    Some(Occur::MustNot) => true,
                    _ => false,
                };
                proof {
                    assert(decreases_to!(*ast => (*ast)->Clause_0));
                    assert(decreases_to!(*children => children@));
                    assert(decreases_to!(children@ => children@[i as int]));
                }
                collect_positive(&children[i].1, negated || child_negated, out);
                assert(strs(out@) =~= start + spec_positive_members(children@, negated, i + 1));
                i += 1;
            }
        },
    }
}

/// Whether a leaf is satisfied by lowercased text: a literal when its
/// lowercased phrase occurs in the text, a regular expression when it
/// matches case-insensitively, the match-everything leaf always, other
/// leaves never.
pub open spec fn spec_eval_leaf(leaf: QueryLeaf, text: Seq<char>) -> bool {
    match leaf {
        QueryLeaf::Literal(phrase) => spec_contains(text, spec_lowercase(phrase@)),
        QueryLeaf::All => true,
        QueryLeaf::Regex(pattern) => spec_regex_is_match("(?i)"@ + pattern@, text) == Some(true),
        QueryLeaf::Other => false,
    }
}

/// Whether lowercased `text` satisfies `ast`. A clause fails when a
/// `MustNot` member is satisfied; otherwise, if it has `Must` members it
/// holds when all of them are satisfied, else if it has `Should` members
/// (an unmarked member counts as `Should`) when one of them is, else it holds.
pub open spec fn spec_eval(ast: QueryAst, text: Seq<char>) -> bool
    decreases ast,
{
    match ast {
        QueryAst::Leaf(leaf) => spec_eval_leaf(*leaf, text),
        QueryAst::Boost(inner) => spec_eval(*inner, text),
        QueryAst::Clause(children) => {
            let excluded = exists|i: int| 0 <= i < children@.len()
                && spec_occur(children@[i].0) == Occur::MustNot && spec_eval(#[trigger] children@[i].1, text);
            let has_must = exists|i: int| 0 <= i < children@.len() && spec_occur(#[trigger] children@[i].0) == Occur::Must;
            let all_must = forall|i: int| 0 <= i < children@.len() && spec_occur(children@[i].0) == Occur::Must
                ==> spec_eval(#[trigger] children@[i].1, text);
            let has_should = exists|i: int| 0 <= i < children@.len() && spec_occur(#[trigger] children@[i].0) == Occur::Should;
            let any_should = exists|i: int| 0 <= i < children@.len()
                && spec_occur(children@[i].0) == Occur::Should && spec_eval(#[trigger] children@[i].1, text);
            if excluded {
                false
            } else if has_must {
                all_must
            } else if has_should {
                any_should
            } else {
                true
            }
        },
    }
}

/// Boolean clause semantics. A member marked `MustNot` that holds makes
/// the clause fail. Otherwise a clause with a `Must` member holds exactly
/// when all its `Must` members hold, whatever its optional members (those
/// marked `Should` or unmarked); a clause without `Must` members holds
/// exactly when one of its optional members holds, or it has none.
pub proof fn lemma_clause_semantics(children: Vec<(Option<Occur>, QueryAst)>, text: Seq<char>)
    ensures
        (exists|i: int| 0 <= i < children@.len() && children@[i].0 == Some(Occur::MustNot)
            && spec_eval(#[trigger] children@[i].1, text))
            ==> !spec_eval(QueryAst::Clause(children), text),
        (forall|i: int| 0 <= i < children@.len() && children@[i].0 == Some(Occur::MustNot)
            ==> !spec_eval(#[trigger] children@[i].1, text))
        && (exists|i: int| 0 <= i < children@.len() && #[trigger] children@[i].0 == Some(Occur::Must))
            ==> (spec_eval(QueryAst::Clause(children), text) <==>
                forall|i: int| 0 <= i < children@.len() && children@[i].0 == Some(Occur::Must)
                    ==> spec_eval(#[trigger] children@[i].1, text)),
        (forall|i: int| 0 <= i < children@.len() && children@[i].0 == Some(Occur::MustNot)
            ==> !spec_eval(#[trigger] children@[i].1, text))
        && (forall|i: int| 0 <= i < children@.len() ==> #[trigger] children@[i].0 != Some(Occur::Must))
            ==> (spec_eval(QueryAst::Clause(children), text) <==> (
                (forall|i: int| 0 <= i < children@.len() ==> #[trigger] children@[i].0 == Some(Occur::MustNot))
                || exists|i: int| 0 <= i < children@.len() && children@[i].0 != Some(Occur::MustNot)
                    && spec_eval(#[trigger] children@[i].1, text))),
{
    let c = children@;
    assert forall|i: int| 0 <= i < c.len() implies
        (#[trigger] spec_occur(c[i].0) == Occur::Must) == (c[i].0 == Some(Occur::Must))
        && (spec_occur(c[i].0) == Occur::MustNot) == (c[i].0 == Some(Occur::MustNot))
        && (spec_occur(c[i].0) == Occur::Should) == (c[i].0 != Some(Occur::Must) && c[i].0 != Some(Occur::MustNot)) by {
        match c[i].0 {
            Some(x) => {},
            None => {},
        }
    }
    if exists|i: int| 0 <= i < c.len() && c[i].0 == Some(Occur::MustNot) && spec_eval(#[trigger] c[i].1, text) {
        let i = choose|i: int| 0 <= i < c.len() && c[i].0 == Some(Occur::MustNot) && spec_eval(#[trigger] c[i].1, text);
        assert(spec_occur(c[i].0) == Occur::MustNot);
    }
    if exists|i: int| 0 <= i < c.len() && #[trigger] c[i].0 == Some(Occur::Must) {
        let i = choose|i: int| 0 <= i < c.len() && #[trigger] c[i].0 == Some(Occur::Must);
        assert(spec_occur(c[i].0) == Occur::Must);
    }
    if exists|i: int| 0 <= i < c.len() && spec_occur(#[trigger] c[i].0) == Occur::Must {
        let i = choose|i: int| 0 <= i < c.len() && spec_occur(#[trigger] c[i].0) == Occur::Must;
        assert(c[i].0 == Some(Occur::Must));
    }
    if exists|i: int| 0 <= i < c.len() && spec_occur(#[trigger] c[i].0) == Occur::Should {
        let i = choose|i: int| 0 <= i < c.len() && spec_occur(#[trigger] c[i].0) == Occur::Should;
        assert(c[i].0 != Some(Occur::MustNot));
    }
    if exists|i: int| 0 <= i < c.len() && c[i].0 != Some(Occur::MustNot) && spec_eval(#[trigger] c[i].1, text) {
        let i = choose|i: int| 0 <= i < c.len() && c[i].0 != Some(Occur::MustNot) && spec_eval(#[trigger] c[i].1, text);
        assert(spec_occur(c[i].0) == Occur::Should || spec_occur(c[i].0) == Occur::Must);
    }
}

fn eval_leaf(leaf: &QueryLeaf, text: &str, text_chars: &Vec<char>) -> (r: bool)
    requires
        text_chars@ == text@,
    ensures
        r == spec_eval_leaf(*leaf, text@),
{
    match leaf {
        QueryLeaf::Literal(phrase) => {
            let p = chars_of(lowercase(phrase.as_str()).as_str());
            contains_chars(text_chars, &p)
        },
        QueryLeaf::All => true,
        QueryLeaf::Regex(pattern) => {
            let mut full = String::new();
            push_str(&mut full, "(?i)");
            push_str(&mut full, pattern.as_str());
            match regex_is_match(full.as_str(), text) {
                Some(b) => b,
                None => false,
            }
        },
        QueryLeaf::Other => false,
    }
}

fn eval(ast: &QueryAst, text: &str, text_chars: &Vec<char>) -> (r: bool)
    requires
        text_chars@ == text@,
    ensures
        r == spec_eval(*ast, text@),
    decreases ast,
{
    match ast {
        QueryAst::Leaf(leaf) => eval_leaf(leaf, text, text_chars),
        QueryAst::Boost(inner) => eval(inner, text, text_chars),
        QueryAst::Clause(children) => {
            let ghost cs = children@;
            let mut has_must = false;
            let mut all_must = true;
            let mut has_should = false;
            let mut any_should = false;
            let mut excluded = false;
            let mut i: usize = 0;
            while i < children.len()
                invariant
                    i <= cs.len(),
                    cs == children@,
                    text_chars@ == text@,
                    *ast == QueryAst::Clause(*children),
                    excluded == exists|j: int| 0 <= j < i
                        && spec_occur(cs[j].0) == Occur::MustNot && spec_eval(#[trigger] cs[j].1, text@),
                    has_must == exists|j: int| 0 <= j < i && spec_occur(#[trigger] cs[j].0) == Occur::Must,
                    all_must == forall|j: int| 0 <= j < i && spec_occur(cs[j].0) == Occur::Must
                        ==> spec_eval(#[trigger] cs[j].1, text@),
                    has_should == exists|j: int| 0 <= j < i && spec_occur(#[trigger] cs[j].0) == Occur::Should,
                    any_should == exists|j: int| 0 <= j < i
                        && spec_occur(cs[j].0) == Occur::Should && spec_eval(#[trigger] cs[j].1, text@),
                decreases cs.len() - i,
            {
                proof {
                    assert(decreases_to!(*ast => (*ast)->Clause_0));
                    assert(decreases_to!(*children => children@));
                    assert(decreases_to!(children@ => children@[i as int]));
                }
                let m = eval(&children[i].1, text, text_chars);
                let occ = match children[i].0 {
                    Some(o) => o,
                    None => Occur::Should,
                };
                assert(occ == spec_occur(cs[i as int].0));
                match occ {
                    Occur::Must => {
                        has_must = true;
                        if !m {
                            all_must = false;
                        }
                    },
                    Occur::MustNot => {
                        if m {
                            excluded = true;
                        }
                    },
                    Occur::Should => {
                        has_should = true;
                        if m {
                            any_should = true;
                        }
                    },
                }
                i += 1;
            }
            if excluded {
                false
            } else if has_must {
                all_must
            } else if has_should {
                any_should
            } else {
                true
            }
        },
    }
}

/// A parsed, ready-to-evaluate query.
pub struct CompiledQuery {
    pub filters: Filters,
    /// `None` when the residual is empty or does not parse.
    pub ast: Option<QueryAst>,
    /// Lowercased literal phrases of the query that are not negated.
    pub positive_phrases: Vec<String>,
}

/// The syntax tree of a residual query: none for an empty residual.
pub open spec fn spec_compiled_ast(residual: Seq<char>) -> Option<QueryAst> {
    if residual.len() == 0 {
        None
    } else {
        spec_parse_query(residual)
    }
}

/// The positive phrases of an optional syntax tree.
pub open spec fn spec_phrases_of(ast: Option<QueryAst>) -> Seq<Seq<char>> {
    match ast {
        Some(a) => spec_positive(a, false),
        None => Seq::empty(),
    }
}

/// Compile a raw query: extract its filters, parse the residual, collect
/// its positive phrases.
pub fn compile(raw: &str) -> (q: CompiledQuery)
    ensures
        q.filters@ == spec_extract_filters(raw@).0,
        q.ast == spec_compiled_ast(spec_extract_filters(raw@).1),
        strs(q.positive_phrases@) == spec_phrases_of(q.ast),
{
    let (filters, residual) = extract_filters(raw);
    let ast = if residual.as_str().is_empty() {
        None
    } else {
        parse_query_ast(residual.as_str())
    };
    compile_ast(filters, ast)
}

/// A query from its filters and the syntax tree of its residual, with the
/// tree's positive phrases collected.
pub fn compile_ast(filters: Filters, ast: Option<QueryAst>) -> (q: CompiledQuery)
    ensures
        q.filters == filters,
        q.ast == ast,
        strs(q.positive_phrases@) == spec_phrases_of(q.ast),
{
    let mut positive_phrases: Vec<String> = Vec::new();
    match &ast {
        Some(a) => {
            collect_positive(a, false, &mut positive_phrases);
            assert(strs(positive_phrases@) =~= spec_phrases_of(ast));
        },
        None => {
            assert(strs(positive_phrases@) =~= spec_phrases_of(ast));
        },
    }
    CompiledQuery { filters, ast, positive_phrases }
}

/// Whether lowercased text satisfies the query's syntax tree (see
/// [`spec_eval`]); a query without one matches everything.
pub open spec fn spec_matches_text(q: CompiledQuery, text_lower: Seq<char>) -> bool {
    match q.ast {
        None => true,
        Some(a) => spec_eval(a, text_lower),
    }
}

/// True if `text_lower` (already lowercased) satisfies the query.
/// An empty syntax tree matches everything (filters still apply upstream).
pub fn matches_text(q: &CompiledQuery, text_lower: &str) -> (r: bool)
    ensures
        r == spec_matches_text(*q, text_lower@),
{
    match &q.ast {
        None => true,
        Some(ast) => {
            let tc = chars_of(text_lower);
            eval(ast, text_lower, &tc)
        },
    }
}

} // verus!
