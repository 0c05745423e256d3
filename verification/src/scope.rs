//! Which transcript project directories belong to a working directory.
use vstd::prelude::*;
use crate::paths::{path_parent, spec_path_parent};
use crate::query::strs;
use crate::search::{ints, spec_indices_where};
use crate::text::{chars_of, chars_equal, push_char, push_chars, starts_with_chars, string_of, spec_starts_with};

verus! {

/// Number of leading `/` characters of `s`.
pub open spec fn spec_lead_slashes(s: Seq<char>) -> nat
    decreases s.len(),
{
    if s.len() > 0 && s[0] == '/' {
        1 + spec_lead_slashes(s.drop_first())
    } else {
        0
    }
}

/// `s` with every `/` replaced by `-`.
pub open spec fn spec_dashes(s: Seq<char>) -> Seq<char> {
    s.map_values(|c: char| if c == '/' { '-' } else { c })
}

/// The project name transcripts use for a directory: `-` followed by the
/// path without its leading slashes, each remaining `/` turned into `-`.
pub open spec fn spec_encode_path(p: Seq<char>) -> Seq<char> {
    seq!['-'] + spec_dashes(p.skip(spec_lead_slashes(p) as int))
}

proof fn lemma_lead_slashes(s: Seq<char>, k: int)
    requires
        0 <= k <= s.len(),
        forall|j: int| 0 <= j < k ==> #[trigger] s[j] == '/',
        k == s.len() || s[k] != '/',
    ensures
        spec_lead_slashes(s) == k,
    decreases k,
{
    if k > 0 {
        let t = s.drop_first();
        assert forall|j: int| 0 <= j < k - 1 implies #[trigger] t[j] == '/' by {
            assert(t[j] == s[j + 1]);
        }
        lemma_lead_slashes(t, k - 1);
    }
}

/// Encoded project name of a directory (see [`spec_encode_path`]).
pub fn encode_path(path: &str) -> (r: String)
    ensures
        r@ == spec_encode_path(path@),
{
    let c = chars_of(path);
    let mut a: usize = 0;
    while a < c.len() && c[a] == '/'
        invariant
            a <= c@.len(),
            forall|j: int| 0 <= j < a ==> #[trigger] c@[j] == '/',
        decreases c@.len() - a,
    {
        a += 1;
    }
    proof {
        lemma_lead_slashes(c@, a as int);
    }
    let mut out = String::new();
    push_char(&mut out, '-');
    let mut i = a;
    while i < c.len()
        invariant
            a <= i <= c@.len(),
            c@ == path@,
            out@ == seq!['-'] + spec_dashes(c@.subrange(a as int, i as int)),
        decreases c@.len() - i,
    {
        let ch = if c[i] == '/' { '-' } else { c[i] };
        push_char(&mut out, ch);
        assert(spec_dashes(c@.subrange(a as int, i + 1)) =~= spec_dashes(c@.subrange(a as int, i as int)).push(ch));
        i += 1;
    }
    assert(c@.subrange(a as int, c@.len() as int) =~= c@.skip(a as int));
    out
}

/// Whether a project belongs to a working dir: the encoded name itself, or
/// a subdirectory project (the encoded name followed by `-`).
pub open spec fn spec_project_in_scope(project_name: Seq<char>, encoded_working_dir: Seq<char>) -> bool {
    project_name == encoded_working_dir || spec_starts_with(project_name, encoded_working_dir + "-"@)
}

/// The one rule for "does this project dir belong to this working dir"
/// (see [`spec_project_in_scope`]). Shared by directory resolution and
/// dense-result scope filtering.
pub fn project_in_scope(project_name: &str, encoded_working_dir: &str) -> (r: bool)
    ensures
        r == spec_project_in_scope(project_name@, encoded_working_dir@),
{
    let n = chars_of(project_name);
    let e = chars_of(encoded_working_dir);
    if chars_equal(&n, &e) {
        return true;
    }
    let mut prefix = e;
    prefix.push('-');
    assert(prefix@ == encoded_working_dir@ + "-"@) by {
        reveal_strlit("-");
        assert(prefix@ =~= encoded_working_dir@ + "-"@);
    }
    starts_with_chars(&n, &prefix)
}

proof fn lemma_lead_slashes_props(s: Seq<char>)
    ensures
        spec_lead_slashes(s) <= s.len(),
        forall|j: int| 0 <= j < spec_lead_slashes(s) ==> #[trigger] s[j] == '/',
        spec_lead_slashes(s) < s.len() ==> s[spec_lead_slashes(s) as int] != '/',
    decreases s.len(),
{
    if s.len() > 0 && s[0] == '/' {
        let t = s.drop_first();
        lemma_lead_slashes_props(t);
        assert forall|j: int| 0 <= j < spec_lead_slashes(s) implies #[trigger] s[j] == '/' by {
            if j > 0 {
                assert(s[j] == t[j - 1]);
            }
        }
    }
}

/// A subdirectory's project lies in the scope of its ancestor: for a
/// working dir `p` that is not made of slashes alone, the project of
/// `p/q` (what `Path::join` gives for a relative `q` when `p` has no
/// trailing slash) is in scope of `p`, and so is `p`'s own project.
pub proof fn lemma_subdir_in_scope(p: Seq<char>, q: Seq<char>)
    requires
        exists|i: int| 0 <= i < p.len() && p[i] != '/',
    ensures
        spec_project_in_scope(spec_encode_path(p + "/"@ + q), spec_encode_path(p)),
        spec_project_in_scope(spec_encode_path(p), spec_encode_path(p)),
{
    reveal_strlit("/");
    reveal_strlit("-");
    let t = p + "/"@ + q;
    let l = spec_lead_slashes(p);
    lemma_lead_slashes_props(p);
    if l == p.len() {
        let i = choose|i: int| 0 <= i < p.len() && p[i] != '/';
        assert(p[i] == '/');
    }
    assert(l < p.len());
    assert forall|j: int| 0 <= j < l implies #[trigger] t[j] == '/' by {
        assert(t[j] == p[j]);
    }
    assert(t[l as int] == p[l as int]);
    lemma_lead_slashes(t, l as int);
    assert(t.skip(l as int) =~= p.skip(l as int) + "/"@ + q);
    let enc_p = spec_encode_path(p);
    let enc_t = spec_encode_path(t);
    assert(spec_dashes(p.skip(l as int) + "/"@ + q) =~= spec_dashes(p.skip(l as int)) + "-"@ + spec_dashes(q));
    assert(enc_t =~= enc_p + "-"@ + spec_dashes(q));
    assert(enc_t.subrange(0, (enc_p + "-"@).len() as int) =~= enc_p + "-"@);
}

/// Whether a path is a root (or empty): it has no parent.
pub open spec fn spec_stops_ancestry(q: Seq<char>) -> bool {
    q.len() == 0 || spec_path_parent(q) is None
}

/// The path ancestors of `p`, nearest first, stopping before the
/// filesystem root.
pub open spec fn spec_ancestor_paths(p: Seq<char>) -> Seq<Seq<char>>
    decreases p.len(),
{
    match spec_path_parent(p) {
        None => Seq::empty(),
        Some(q) => if spec_stops_ancestry(q) || q.len() >= p.len() {
            Seq::empty()
        } else {
            seq![q] + spec_ancestor_paths(q)
        },
    }
}

/// Encoded names of the path ancestors of `p`.
pub open spec fn spec_ancestor_names(p: Seq<char>) -> Seq<Seq<char>> {
    spec_ancestor_paths(p).map_values(|q: Seq<char>| spec_encode_path(q))
}

/// Encoded names of the working dir's path ancestors, nearest first,
/// stopping before the filesystem root. Sessions run from a parent
/// directory land in these projects.
pub fn ancestor_names(working_dir: &str) -> (r: Vec<String>)
    ensures
        strs(r@) == spec_ancestor_names(working_dir@),
{
    let mut names: Vec<String> = Vec::new();
    let mut cur = string_of(&chars_of(working_dir));
    loop
        invariant
            spec_ancestor_names(working_dir@) == strs(names@) + spec_ancestor_names(cur@),
        ensures
            spec_ancestor_names(working_dir@) == strs(names@),
        decreases cur@.len(),
    {
        let parent = match path_parent(cur.as_str()) {
            Some(p) => p,
            None => {
                assert(spec_ancestor_names(cur@) =~= Seq::empty());
                assert(strs(names@) =~= strs(names@) + spec_ancestor_names(cur@));
                break;
            },
        };
        let stop = parent.as_str().is_empty() || path_parent(parent.as_str()).is_none();
        if stop {
            assert(spec_ancestor_names(cur@) =~= Seq::empty());
            assert(strs(names@) =~= strs(names@) + spec_ancestor_names(cur@));
            break;
        }
        let ghost before = strs(names@);
        let enc = encode_path(parent.as_str());
        names.push(enc);
        assert(spec_ancestor_paths(cur@) == seq![parent@] + spec_ancestor_paths(parent@));
        assert(spec_ancestor_names(cur@) =~= seq![spec_encode_path(parent@)] + spec_ancestor_names(parent@));
        assert(strs(names@) =~= before.push(spec_encode_path(parent@)));
        cur = parent;
    }
    names
}

/// Indices of the project directories (by name) that a search covers: all
/// of them, or those in scope of the working dir.
pub fn select_project_dirs(names: &Vec<String>, working_dir: &str, all_projects: bool) -> (r: Vec<usize>)
    ensures
        ints(r@) == spec_indices_where(
            names@.len() as int,
            |i: int| all_projects || spec_project_in_scope(names@[i]@, spec_encode_path(working_dir@)),
        ),
{
    let encoded = encode_path(working_dir);
    let ghost pred = |i: int| all_projects || spec_project_in_scope(names@[i]@, spec_encode_path(working_dir@));
    let mut out: Vec<usize> = Vec::new();
    let mut i: usize = 0;
    while i < names.len()
        invariant
            i <= names@.len(),
            encoded@ == spec_encode_path(working_dir@),
            pred == (|i: int| all_projects || spec_project_in_scope(names@[i]@, spec_encode_path(working_dir@))),
            ints(out@) == spec_indices_where(i as int, pred),
        decreases names@.len() - i,
    {
        let ghost before = ints(out@);
        if all_projects || project_in_scope(names[i].as_str(), encoded.as_str()) {
            out.push(i);
            assert(ints(out@) =~= before.push(i as int));
        }
        i += 1;
    }
    out
}

/// Indices of the project directories (by name) that are exact path
/// ancestors of the working dir. Exact match only — a prefix match would
/// pull in sibling projects.
pub fn select_ancestor_dirs(names: &Vec<String>, working_dir: &str) -> (r: Vec<usize>)
    ensures
        ints(r@) == spec_indices_where(
            names@.len() as int,
            |i: int| spec_ancestor_names(working_dir@).contains(names@[i]@),
        ),
{
    let anc = ancestor_names(working_dir);
    let ghost pred = |i: int| spec_ancestor_names(working_dir@).contains(names@[i]@);
    let mut out: Vec<usize> = Vec::new();
    let mut i: usize = 0;
    while i < names.len()
        invariant
            i <= names@.len(),
            strs(anc@) == spec_ancestor_names(working_dir@),
            pred == (|i: int| spec_ancestor_names(working_dir@).contains(names@[i]@)),
            ints(out@) == spec_indices_where(i as int, pred),
        decreases names@.len() - i,
    {
        let n = chars_of(names[i].as_str());
        let mut found = false;
        let mut k: usize = 0;
        while k < anc.len()
            invariant
                k <= anc@.len(),
                n@ == names@[i as int]@,
                found == exists|j: int| 0 <= j < k && (#[trigger] anc@[j])@ == n@,
            decreases anc@.len() - k,
        {
            let a = chars_of(anc[k].as_str());
            if chars_equal(&a, &n) {
                found = true;
            }
            k += 1;
        }
        proof {
            let names_spec = spec_ancestor_names(working_dir@);
            if found {
                let j = choose|j: int| 0 <= j < anc@.len() && (#[trigger] anc@[j])@ == n@;
                assert(names_spec[j] == anc@[j]@);
            }
            if names_spec.contains(n@) {
                let j = choose|j: int| 0 <= j < names_spec.len() && names_spec[j] == n@;
                assert(names_spec[j] == anc@[j]@);
            }
        }
        let ghost before = ints(out@);
        if found {
            out.push(i);
            assert(ints(out@) =~= before.push(i as int));
        }
        i += 1;
    }
    out
}

} // verus!
