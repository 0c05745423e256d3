//! One tier of the lexical search: which sessions it covers, in what order,
//! and what each contributes.
use vstd::prelude::*;
use vstd::string::StringSliceAdditionalSpecFns;
use vstd::utf8::{encode_utf8, is_char_boundary};
use crate::paths::{path_file_name, path_file_stem, path_parent, path_starts_with, spec_path_file_name,
    spec_path_file_stem, spec_path_parent, spec_path_starts_with};
use crate::parser::{parent_session_id, spec_parent_session_id};
use crate::query::strs;
use crate::text::{chars_of, chars_equal, contains_chars, spec_contains};
use crate::search::{ints, spec_indices_where, evaluate, spec_eval_anchors, spec_eval_terms, match_indices, msg_views,
    lemma_anchors_bounded, lemma_anchors_respect_role, lemma_indices_bounded, lemma_indices_sorted};
use crate::parser::{Message, MessageView};
use crate::query::{CompiledQuery, opt_str};
use crate::output::{SessionResult, ResultView, build_session_result, lemma_producing_props, result_views, spec_session_results};
use crate::escalate::Scope;

verus! {

/// Byte-wise lexicographic order, as `str` compares.
pub open spec fn spec_bytes_lt(x: Seq<u8>, y: Seq<u8>) -> bool
    decreases x.len(),
{
    if x.len() == 0 {
        y.len() > 0
    } else if y.len() == 0 {
        false
    } else if x[0] != y[0] {
        x[0] < y[0]
    } else {
        spec_bytes_lt(x.drop_first(), y.drop_first())
    }
}

fn bytes_lt(x: &[u8], y: &[u8]) -> (r: bool)
    ensures
        r == spec_bytes_lt(x@, y@),
{
    let mut i: usize = 0;
    assert(x@.skip(0) =~= x@);
    assert(y@.skip(0) =~= y@);
    while i < x.len() && i < y.len()
        invariant
            i <= x@.len(),
            i <= y@.len(),
            x@.take(i as int) == y@.take(i as int),
            spec_bytes_lt(x@, y@) == spec_bytes_lt(x@.skip(i as int), y@.skip(i as int)),
        decreases x@.len() - i,
    {
        assert(x@.skip(i as int).drop_first() =~= x@.skip(i + 1));
        assert(y@.skip(i as int).drop_first() =~= y@.skip(i + 1));
        if x[i] != y[i] {
            return x[i] < y[i];
        }
        assert(x@.take(i + 1) =~= x@.take(i as int).push(x@[i as int]));
        assert(y@.take(i + 1) =~= y@.take(i as int).push(y@[i as int]));
        i += 1;
    }
    i < y.len()
}

/// The date part of a timestamp: its first ten bytes when they end on a
/// character boundary, otherwise nothing.
pub open spec fn spec_date_of(ts: Seq<char>) -> Seq<u8> {
    let b = encode_utf8(ts);
    if is_char_boundary(b, 10) { b.take(10) } else { Seq::empty() }
}

/// Whether a timestamp's date lies within the optional inclusive bounds
/// (compared as text). An undated timestamp fails an `after` bound.
pub open spec fn spec_ts_in_range(ts: Seq<char>, after: Option<Seq<char>>, before: Option<Seq<char>>) -> bool {
    let date = spec_date_of(ts);
    &&& (after matches Some(a) ==> !spec_bytes_lt(date, encode_utf8(a)))
    &&& (before matches Some(b) ==> !spec_bytes_lt(encode_utf8(b), date))
}

/// Date filter on a timestamp (see [`spec_ts_in_range`]).
pub fn ts_in_range(ts: &str, after: &Option<String>, before: &Option<String>) -> (r: bool)
    ensures
        r == spec_ts_in_range(ts@, crate::query::opt_str(*after), crate::query::opt_str(*before)),
{
    let all = ts.as_bytes();
    proof {
        vstd::utf8::encode_utf8_valid_utf8(ts@);
    }
    let mut date: Vec<u8> = Vec::new();
    if ts.is_char_boundary(10) {
        let mut i: usize = 0;
        while i < 10
            invariant
                i <= 10,
                10 <= all@.len(),
                date@ == all@.take(i as int),
            decreases 10 - i,
        {
            date.push(all[i]);
            assert(all@.take(i + 1) =~= all@.take(i as int).push(all@[i as int]));
            i += 1;
        }
    }
    assert(date@ == spec_date_of(ts@)) by {
        if !is_char_boundary(all@, 10) {
            assert(date@ =~= Seq::empty());
        }
    }
    if let Some(a) = after {
        if bytes_lt(date.as_slice(), a.as_str().as_bytes()) {
            return false;
        }
    }
    if let Some(b) = before {
        if bytes_lt(b.as_str().as_bytes(), date.as_slice()) {
            return false;
        }
    }
    true
}

/// The text of an optional path component, empty when absent.
pub open spec fn spec_or_empty(o: Option<Seq<char>>) -> Seq<char> {
    match o {
        Some(s) => s,
        None => Seq::empty(),
    }
}

/// Position of the first project dir (from `i` on) that `path` lies under.
pub open spec fn spec_first_dir(path: Seq<char>, dirs: Seq<Seq<char>>, i: int) -> Option<int>
    decreases dirs.len() - i,
{
    if i < 0 || i >= dirs.len() {
        None
    } else if spec_path_starts_with(path, dirs[i]) {
        Some(i)
    } else {
        spec_first_dir(path, dirs, i + 1)
    }
}

/// The project a transcript path belongs to: the name of the first project
/// dir it lies under, else the name of its own directory, else empty.
pub open spec fn spec_project_for(path: Seq<char>, dirs: Seq<Seq<char>>) -> Seq<char> {
    match spec_first_dir(path, dirs, 0) {
        Some(i) => spec_or_empty(spec_path_file_name(dirs[i])),
        None => match spec_path_parent(path) {
            Some(p) => spec_or_empty(spec_path_file_name(p)),
            None => Seq::empty(),
        },
    }
}

fn name_or_empty(p: &str) -> (r: String)
    ensures
        r@ == spec_or_empty(spec_path_file_name(p@)),
{
    match path_file_name(p) {
        Some(n) => n,
        None => String::new(),
    }
}

/// Project of a transcript path (see [`spec_project_for`]).
pub fn project_for(path: &str, project_dirs: &Vec<String>) -> (r: String)
    ensures
        r@ == spec_project_for(path@, strs(project_dirs@)),
{
    let ghost ds = strs(project_dirs@);
    let mut i: usize = 0;
    while i < project_dirs.len()
        invariant
            i <= project_dirs@.len(),
            ds == strs(project_dirs@),
            spec_first_dir(path@, ds, 0) == spec_first_dir(path@, ds, i as int),
        decreases project_dirs@.len() - i,
    {
        if path_starts_with(path, project_dirs[i].as_str()) {
            return name_or_empty(project_dirs[i].as_str());
        }
        i += 1;
    }
    match path_parent(path) {
        Some(p) => name_or_empty(p.as_str()),
        None => String::new(),
    }
}

/// The session a transcript file belongs to: its parent session when it is
/// a sub-agent log, else its file stem.
pub open spec fn spec_session_key(path: Seq<char>) -> Seq<char> {
    match spec_parent_session_id(path) {
        Some(s) => s,
        None => spec_or_empty(spec_path_file_stem(path)),
    }
}

/// Session key of a transcript path (see [`spec_session_key`]).
pub fn session_key(path: &str) -> (r: String)
    ensures
        r@ == spec_session_key(path@),
{
    match parent_session_id(path) {
        Some(s) => s,
        None => match path_file_stem(path) {
            Some(s) => s,
            None => String::new(),
        },
    }
}


/// A transcript file found for a tier: its path, its project dir name and
/// its modification time (nanoseconds from the Unix epoch).
pub struct Candidate {
    pub path: String,
    pub project: String,
    pub mtime: i128,
}

/// A session of a tier: its key, its transcript files (positions among
/// the candidates, in candidate order) and its newest modification time.
pub struct SessionGroup {
    pub key: String,
    pub files: Vec<usize>,
    pub mtime: i128,
}

/// The mathematical content of a [`SessionGroup`].
pub struct GroupView {
    pub key: Seq<char>,
    pub files: Seq<int>,
    pub mtime: i128,
}

/// The view of a session group.
pub open spec fn group_view(g: SessionGroup) -> GroupView {
    GroupView { key: g.key@, files: ints(g.files@), mtime: g.mtime }
}

/// Whether candidate `i` passes the project filter (a substring of the
/// project dir name).
pub open spec fn spec_kept(c: Seq<Candidate>, pf: Option<Seq<char>>, i: int) -> bool {
    match pf {
        None => true,
        Some(f) => spec_contains(c[i].project@, f),
    }
}

/// Whether candidate `i` passes the filter and belongs to session `k`.
pub open spec fn spec_member(c: Seq<Candidate>, pf: Option<Seq<char>>, k: Seq<char>, i: int) -> bool {
    spec_kept(c, pf, i) && spec_session_key(c[i].path@) == k
}

/// The files of session `k`.
pub open spec fn spec_files_of(c: Seq<Candidate>, pf: Option<Seq<char>>, k: Seq<char>) -> Seq<int> {
    spec_indices_where(c.len() as int, |i: int| spec_member(c, pf, k, i))
}

/// The newest modification time among some candidates.
pub open spec fn spec_max_mtime(c: Seq<Candidate>, idxs: Seq<int>) -> i128
    decreases idxs.len(),
{
    if idxs.len() <= 1 {
        c[idxs[0]].mtime
    } else {
        let m = spec_max_mtime(c, idxs.drop_last());
        if c[idxs.last()].mtime > m { c[idxs.last()].mtime } else { m }
    }
}

/// The modification time of session `k`: that of its newest file.
pub open spec fn spec_key_mtime(c: Seq<Candidate>, pf: Option<Seq<char>>, k: Seq<char>) -> i128 {
    spec_max_mtime(c, spec_files_of(c, pf, k))
}

/// Whether a group describes session `g.key` exactly.
pub open spec fn spec_group_ok(c: Seq<Candidate>, pf: Option<Seq<char>>, g: GroupView) -> bool {
    &&& g.files == spec_files_of(c, pf, g.key)
    &&& g.files.len() > 0
    &&& g.mtime == spec_key_mtime(c, pf, g.key)
}

/// The group views of a vector of groups.
pub open spec fn group_views(gs: Seq<SessionGroup>) -> Seq<GroupView> {
    gs.map_values(|g: SessionGroup| group_view(g))
}

proof fn lemma_indices_step(n: int, pred: spec_fn(int) -> bool)
    requires
        0 <= n,
    ensures
        spec_indices_where(n + 1, pred) == if pred(n) {
            spec_indices_where(n, pred).push(n)
        } else {
            spec_indices_where(n, pred)
        },
{
}

proof fn lemma_indices_empty(n: int, pred: spec_fn(int) -> bool)
    requires
        forall|j: int| 0 <= j < n ==> !#[trigger] pred(j),
    ensures
        spec_indices_where(n, pred).len() == 0,
    decreases n,
{
    if n > 0 {
        lemma_indices_empty(n - 1, pred);
    }
}

/// Group the candidates that pass the project filter into sessions, in
/// order of first appearance.
fn group_candidates(cands: &Vec<Candidate>, project_filter: &Option<String>) -> (r: Vec<SessionGroup>)
    ensures
        forall|g: int| 0 <= g < r@.len() ==>
            spec_group_ok(cands@, crate::query::opt_str(*project_filter), #[trigger] group_views(r@)[g]),
        forall|g: int, h: int| 0 <= g < h < r@.len() ==> r@[g].key@ != r@[h].key@,
        forall|i: int| 0 <= i < cands@.len() && spec_kept(cands@, crate::query::opt_str(*project_filter), i)
            ==> exists|g: int| 0 <= g < r@.len() && #[trigger] r@[g].key@ == spec_session_key(cands@[i].path@),
{
    let ghost c = cands@;
    let ghost pf = crate::query::opt_str(*project_filter);
    let filter_chars = match project_filter {
        Some(f) => Some(chars_of(f.as_str())),
        None => None,
    };
    let mut groups: Vec<SessionGroup> = Vec::new();
    let mut i: usize = 0;
    while i < cands.len()
        invariant
            i <= c.len(),
            c == cands@,
            pf == crate::query::opt_str(*project_filter),
            filter_chars matches Some(fc) ==> pf == Some(fc@),
            filter_chars is None ==> pf is None,
            forall|g: int| 0 <= g < groups@.len() ==> {
                let v = #[trigger] group_views(groups@)[g];
                &&& v.files == spec_indices_where(i as int, |j: int| spec_member(c, pf, v.key, j))
                &&& v.files.len() > 0
                &&& v.mtime == spec_max_mtime(c, v.files)
            },
            forall|g: int, h: int| 0 <= g < h < groups@.len() ==> groups@[g].key@ != groups@[h].key@,
            forall|j: int| 0 <= j < i && spec_kept(c, pf, j)
                ==> exists|g: int| 0 <= g < groups@.len() && #[trigger] groups@[g].key@ == spec_session_key(c[j].path@),
        decreases c.len() - i,
    {
        let kept = match &filter_chars {
            None => true,
            Some(fc) => {
                let pc = chars_of(cands[i].project.as_str());
                contains_chars(&pc, fc)
            },
        };
        assert(kept == spec_kept(c, pf, i as int));
        let ghost before = group_views(groups@);
        let ghost bg = groups@;
        if kept {
            let key = session_key(cands[i].path.as_str());
            let kc = chars_of(key.as_str());
            let mut found: Option<usize> = None;
            let mut g: usize = 0;
            while g < groups.len()
                invariant
                    g <= groups@.len(),
                    kc@ == key@,
                    found matches Some(f) ==> f < groups@.len() && groups@[f as int].key@ == key@,
                    found is None ==> forall|h: int| 0 <= h < g ==> (#[trigger] groups@[h]).key@ != key@,
                decreases groups@.len() - g,
            {
                if found.is_none() {
                    let gc = chars_of(groups[g].key.as_str());
                    if chars_equal(&gc, &kc) {
                        found = Some(g);
                    }
                }
                g += 1;
            }
            let m = cands[i].mtime;
            match found {
                Some(f) => {
                    let mut files = Vec::new();
                    std::mem::swap(&mut files, &mut groups[f].files);
                    let ghost old_files = ints(files@);
                    files.push(i);
                    std::mem::swap(&mut files, &mut groups[f].files);
                    if m > groups[f].mtime {
                        groups[f].mtime = m;
                    }
                    let ghost after = group_views(groups@);
                    proof {
                        assert(forall|h: int| 0 <= h < groups@.len() ==> #[trigger] groups@[h].key@ == bg[h].key@);
                        assert(after[f as int].files =~= old_files.push(i as int));
                        assert forall|h: int| 0 <= h < groups@.len() implies {
                            let v = #[trigger] after[h];
                            &&& v.files == spec_indices_where(i + 1, |j: int| spec_member(c, pf, v.key, j))
                            &&& v.files.len() > 0
                            &&& v.mtime == spec_max_mtime(c, v.files)
                        } by {
                            let v = after[h];
                            lemma_indices_step(i as int, |j: int| spec_member(c, pf, v.key, j));
                            if h == f as int {
                                assert(v.files.drop_last() =~= before[h].files);
                            } else {
                                assert(v == before[h]);
                            }
                        }
                        assert forall|j: int| 0 <= j < i + 1 && spec_kept(c, pf, j)
                            implies exists|g: int| 0 <= g < groups@.len() && #[trigger] groups@[g].key@ == spec_session_key(c[j].path@) by {
                            if j == i {
                                assert(groups@[f as int].key@ == spec_session_key(c[j].path@));
                            } else {
                                let g = choose|g: int| 0 <= g < bg.len() && #[trigger] bg[g].key@ == spec_session_key(c[j].path@);
                                assert(groups@[g].key@ == spec_session_key(c[j].path@));
                            }
                        }
                    }
                },
                None => {
                    let mut files = Vec::new();
                    files.push(i);
                    groups.push(SessionGroup { key, files, mtime: m });
                    let ghost after = group_views(groups@);
                    proof {
                        let last = bg.len() as int;
                        assert(forall|h: int| 0 <= h < last ==> #[trigger] groups@[h] == bg[h]);
                        assert forall|h: int| 0 <= h < groups@.len() implies {
                            let v = #[trigger] after[h];
                            &&& v.files == spec_indices_where(i + 1, |j: int| spec_member(c, pf, v.key, j))
                            &&& v.files.len() > 0
                            &&& v.mtime == spec_max_mtime(c, v.files)
                        } by {
                            let v = after[h];
                            lemma_indices_step(i as int, |j: int| spec_member(c, pf, v.key, j));
                            if h == last {
                                assert forall|j: int| 0 <= j < i implies !#[trigger] spec_member(c, pf, v.key, j) by {
                                    if spec_member(c, pf, v.key, j) {
                                        let g = choose|g: int| 0 <= g < bg.len() && #[trigger] bg[g].key@ == spec_session_key(c[j].path@);
                                        assert(bg[g].key@ == key@);
                                    }
                                }
                                lemma_indices_empty(i as int, |j: int| spec_member(c, pf, v.key, j));
                                assert(v.files =~= seq![i as int]);
                            } else {
                                assert(v == before[h]);
                            }
                        }
                        assert forall|j: int| 0 <= j < i + 1 && spec_kept(c, pf, j)
                            implies exists|g: int| 0 <= g < groups@.len() && #[trigger] groups@[g].key@ == spec_session_key(c[j].path@) by {
                            if j == i {
                                assert(groups@[last].key@ == spec_session_key(c[j].path@));
                            } else {
                                let g = choose|g: int| 0 <= g < bg.len() && #[trigger] bg[g].key@ == spec_session_key(c[j].path@);
                                assert(groups@[g].key@ == spec_session_key(c[j].path@));
                            }
                        }
                    }
                },
            }
        } else {
            proof {
                assert forall|h: int| 0 <= h < groups@.len() implies {
                    let v = #[trigger] before[h];
                    &&& v.files == spec_indices_where(i + 1, |j: int| spec_member(c, pf, v.key, j))
                    &&& v.files.len() > 0
                    &&& v.mtime == spec_max_mtime(c, v.files)
                } by {
                    lemma_indices_step(i as int, |j: int| spec_member(c, pf, before[h].key, j));
                }
            }
        }
        i += 1;
    }
    groups
}


/// Whether `j` occurs in `perm`.
pub open spec fn spec_listed(perm: Seq<int>, j: int) -> bool {
    exists|k: int| 0 <= k < perm.len() && perm[k] == j
}

/// Whether `out` lists the members of `src` in the order `perm`, each once.
pub open spec fn spec_reorders(out: Seq<GroupView>, src: Seq<GroupView>, perm: Seq<int>) -> bool {
    &&& perm.len() == src.len()
    &&& out.len() == src.len()
    &&& forall|k: int| 0 <= k < perm.len() ==> 0 <= #[trigger] perm[k] < src.len() && out[k] == src[perm[k]]
    &&& forall|a: int, b: int| 0 <= a < b < perm.len() ==> perm[a] != perm[b]
    &&& forall|j: int| 0 <= j < src.len() ==> #[trigger] spec_listed(perm, j)
}

/// Number of unused slots.
pub open spec fn spec_unused(used: Seq<bool>) -> nat
    decreases used.len(),
{
    if used.len() == 0 {
        0
    } else {
        spec_unused(used.drop_last()) + if used.last() { 0nat } else { 1nat }
    }
}

proof fn lemma_unused_update(used: Seq<bool>, j: int)
    requires
        0 <= j < used.len(),
        !used[j],
    ensures
        spec_unused(used.update(j, true)) + 1 == spec_unused(used),
    decreases used.len(),
{
    let u2 = used.update(j, true);
    if j == used.len() - 1 {
        assert(u2.drop_last() =~= used.drop_last());
    } else {
        assert(u2.drop_last() =~= used.drop_last().update(j, true));
        lemma_unused_update(used.drop_last(), j);
    }
}

/// Groups ordered newest first (a stable selection of the newest
/// remaining group), as the tier visits them.
fn sort_newest_first(groups: Vec<SessionGroup>) -> (r: Vec<SessionGroup>)
    ensures
        r@.len() == groups@.len(),
        forall|a: int, b: int| 0 <= a < b < r@.len() ==> r@[a].mtime >= r@[b].mtime,
        exists|perm: Seq<int>| #[trigger] spec_reorders(group_views(r@), group_views(groups@), perm),
{
    let n = groups.len();
    let ghost orig = groups@;
    let mut used: Vec<bool> = Vec::new();
    let mut u: usize = 0;
    while u < n
        invariant
            u <= n,
            used@.len() == u,
            forall|q: int| 0 <= q < u ==> !#[trigger] used@[q],
        decreases n - u,
    {
        used.push(false);
        u += 1;
    }
    proof {
        assert(spec_unused(used@) == n) by {
            lemma_all_unused(used@);
        }
    }
    let mut order: Vec<usize> = Vec::new();
    loop
        invariant
            n == orig.len(),
            groups@ == orig,
            used@.len() == n,
            order@.len() + spec_unused(used@) == n,
            forall|k: int| 0 <= k < order@.len() ==> (#[trigger] order@[k]) < n && used@[order@[k] as int],
            forall|a: int, b: int| 0 <= a < b < order@.len() ==> order@[a] != order@[b],
            forall|j: int| 0 <= j < n && #[trigger] used@[j] ==> exists|k: int| 0 <= k < order@.len() && order@[k] == j,
            forall|a: int, b: int| 0 <= a < b < order@.len() ==> orig[order@[a] as int].mtime >= orig[order@[b] as int].mtime,
            forall|a: int, j: int| 0 <= a < order@.len() && 0 <= j < n && !used@[j] ==>
                #[trigger] orig[order@[a] as int].mtime >= #[trigger] orig[j].mtime,
        ensures
            forall|j: int| 0 <= j < n ==> #[trigger] used@[j],
            order@.len() == n,
        decreases spec_unused(used@),
    {
        let mut best: Option<usize> = None;
        let mut j: usize = 0;
        while j < n
            invariant
                j <= n,
                n == orig.len(),
                groups@ == orig,
                used@.len() == n,
                best matches Some(b) ==> b < j && !used@[b as int]
                    && forall|q: int| 0 <= q < j && !used@[q] ==> orig[b as int].mtime >= #[trigger] orig[q].mtime,
                best is None ==> forall|q: int| 0 <= q < j ==> #[trigger] used@[q],
            decreases n - j,
        {
            if !used[j] {
                match best {
                    None => { best = Some(j); },
                    Some(b) => {
                        if groups[j].mtime > groups[b].mtime {
                            best = Some(j);
                        }
                    },
                }
            }
            j += 1;
        }
        match best {
            None => {
                proof {
                    if order@.len() < n {
                        assert(spec_unused(used@) > 0);
                        assert(forall|q: int| 0 <= q < n ==> #[trigger] used@[q]);
                        lemma_none_unused(used@);
                    }
                }
                break;
            },
            Some(b) => {
                proof {
                    lemma_unused_update(used@, b as int);
                }
                let ghost old_used = used@;
                let ghost old_order = order@;
                used.set(b, true);
                order.push(b);
                proof {
                    assert forall|q: int| 0 <= q < n && #[trigger] used@[q] implies exists|k: int| 0 <= k < order@.len() && order@[k] == q by {
                        if q == b as int {
                            assert(order@[old_order.len() as int] == q);
                        } else {
                            assert(old_used[q]);
                            let k = choose|k: int| 0 <= k < old_order.len() && old_order[k] == q;
                            assert(order@[k] == q);
                        }
                    }
                }
            },
        }
    }
    let mut pool = groups;
    let mut out: Vec<SessionGroup> = Vec::new();
    let mut k: usize = 0;
    while k < n
        invariant
            k <= n,
            n == orig.len(),
            pool@.len() == n,
            order@.len() == n,
            out@.len() == k,
            forall|q: int| 0 <= q < n ==> (#[trigger] order@[q]) < n,
            forall|a: int, b: int| 0 <= a < b < n ==> order@[a] != order@[b],
            forall|q: int| k <= q < n ==> group_view(#[trigger] pool@[order@[q] as int]) == group_view(orig[order@[q] as int]),
            forall|q: int| 0 <= q < k ==> group_view(#[trigger] out@[q]) == group_view(orig[order@[q] as int]),
        decreases n - k,
    {
        let mut taken = SessionGroup { key: String::new(), files: Vec::new(), mtime: 0 };
        let idx = order[k];
        let ghost before_pool = pool@;
        std::mem::swap(&mut taken, &mut pool[idx]);
        assert forall|q: int| k + 1 <= q < n implies group_view(#[trigger] pool@[order@[q] as int]) == group_view(orig[order@[q] as int]) by {
            assert(order@[q] != order@[k as int]);
            assert(pool@[order@[q] as int] == before_pool[order@[q] as int]);
        }
        out.push(taken);
        k += 1;
    }
    proof {
        let perm = order@.map_values(|x: usize| x as int);
        assert forall|j: int| 0 <= j < orig.len() implies #[trigger] spec_listed(perm, j) by {
            assert(used@[j]);
            let k = choose|k: int| 0 <= k < order@.len() && order@[k] == j;
            assert(perm[k] == j);
        }
        assert(forall|a: int| 0 <= a < out@.len() ==> (#[trigger] out@[a]).mtime == orig[order@[a] as int].mtime);
        assert(forall|q: int| 0 <= q < n ==> #[trigger] group_views(out@)[q] == group_views(orig)[perm[q]]);
        assert(spec_reorders(group_views(out@), group_views(orig), perm));
    }
    out
}

proof fn lemma_all_unused(used: Seq<bool>)
    requires
        forall|q: int| 0 <= q < used.len() ==> !#[trigger] used[q],
    ensures
        spec_unused(used) == used.len(),
    decreases used.len(),
{
    if used.len() > 0 {
        lemma_all_unused(used.drop_last());
    }
}

proof fn lemma_none_unused(used: Seq<bool>)
    requires
        forall|q: int| 0 <= q < used.len() ==> #[trigger] used[q],
    ensures
        spec_unused(used) == 0,
    decreases used.len(),
{
    if used.len() > 0 {
        lemma_none_unused(used.drop_last());
    }
}


/// The sessions a tier searches, newest first: the candidates that pass the
/// project filter grouped by session (see [`spec_group_ok`]); the
/// most-recent tier keeps only the newest `recent_limit`.
pub fn order_sessions(cands: &Vec<Candidate>, project_filter: &Option<String>, scope: Scope, recent_limit: usize)
    -> (r: Vec<SessionGroup>)
    ensures
        forall|g: int| 0 <= g < r@.len() ==>
            spec_group_ok(cands@, crate::query::opt_str(*project_filter), #[trigger] group_views(r@)[g]),
        forall|g: int, h: int| 0 <= g < h < r@.len() ==> r@[g].key@ != r@[h].key@,
        forall|g: int, h: int| 0 <= g < h < r@.len() ==> r@[g].mtime >= r@[h].mtime,
        scope == Scope::CurrentProjectRecent ==> r@.len() <= recent_limit,
        forall|i: int| 0 <= i < cands@.len() && spec_kept(cands@, crate::query::opt_str(*project_filter), i)
            && !(exists|g: int| 0 <= g < r@.len() && #[trigger] r@[g].key@ == spec_session_key(cands@[i].path@))
            ==> {
                &&& scope == Scope::CurrentProjectRecent
                &&& r@.len() == recent_limit
                &&& forall|g: int| 0 <= g < r@.len() ==> #[trigger] r@[g].mtime
                    >= spec_key_mtime(cands@, crate::query::opt_str(*project_filter), spec_session_key(cands@[i].path@))
            },
{
    let ghost c = cands@;
    let ghost pf = crate::query::opt_str(*project_filter);
    let groups = group_candidates(cands, project_filter);
    let ghost gv = group_views(groups@);
    let mut sorted = sort_newest_first(groups);
    let ghost sv = group_views(sorted@);
    let ghost perm = choose|perm: Seq<int>| #[trigger] spec_reorders(sv, gv, perm);
    proof {
        assert(spec_reorders(sv, gv, perm));
        assert forall|g: int| 0 <= g < sv.len() implies spec_group_ok(c, pf, #[trigger] sv[g]) by {
            assert(sv[g] == gv[perm[g]]);
        }
        assert forall|g: int, h: int| 0 <= g < h < sv.len() implies sorted@[g].key@ != sorted@[h].key@ by {
            assert(sv[g] == gv[perm[g]] && sv[h] == gv[perm[h]]);
            assert(perm[g] != perm[h]);
            if perm[g] < perm[h] {
                assert(gv[perm[g]].key != gv[perm[h]].key);
            } else {
                assert(gv[perm[h]].key != gv[perm[g]].key);
            }
        }
    }
    let is_recent = match scope {
        Scope::CurrentProjectRecent => true,
        _ => false,
    };
    let ghost full = sorted@;
    if is_recent {
        sorted.truncate(recent_limit);
    }
    proof {
        assert(forall|g: int| 0 <= g < sorted@.len() ==> #[trigger] sorted@[g] == full[g]);
        assert(forall|g: int| 0 <= g < sorted@.len() ==> #[trigger] group_views(sorted@)[g] == sv[g]);
        assert forall|i: int| 0 <= i < c.len() && spec_kept(c, pf, i)
            && !(exists|g: int| 0 <= g < sorted@.len() && #[trigger] sorted@[g].key@ == spec_session_key(c[i].path@))
            implies {
                &&& scope == Scope::CurrentProjectRecent
                &&& sorted@.len() == recent_limit
                &&& forall|g: int| 0 <= g < sorted@.len() ==> #[trigger] sorted@[g].mtime
                    >= spec_key_mtime(c, pf, spec_session_key(c[i].path@))
            } by {
            let k0 = spec_session_key(c[i].path@);
            let g0 = choose|g: int| 0 <= g < groups@.len() && #[trigger] groups@[g].key@ == k0;
            assert(gv[g0].key == k0);
            assert(spec_listed(perm, g0));
            let k = choose|k: int| 0 <= k < perm.len() && perm[k] == g0;
            assert(sv[k] == gv[g0]);
            assert(full[k].key@ == k0);
            if k < sorted@.len() {
                assert(sorted@[k].key@ == k0);
            }
            assert(k >= sorted@.len());
            assert(is_recent);
            assert(spec_group_ok(c, pf, sv[k]));
            assert forall|g: int| 0 <= g < sorted@.len() implies #[trigger] sorted@[g].mtime >= spec_key_mtime(c, pf, k0) by {
                assert(full[g].mtime >= full[k].mtime);
            }
        }
    }
    sorted
}


/// Result windows a session contributes at most, so that the results span
/// many distinct sessions instead of being saturated by one chatty session.
pub const PER_SESSION_WINDOW_CAP: usize = 2;

/// One parsed transcript file of a session, with its project dir name.
pub struct ParsedFile {
    pub messages: Vec<Message>,
    pub project: String,
}

/// Whether a file of a session takes part: the query anchors somewhere in
/// it and the first anchor's timestamp passes the date filters.
pub open spec fn spec_file_counts(msgs: Seq<MessageView>, q: CompiledQuery) -> bool {
    let a = spec_eval_anchors(msgs, q);
    a.len() > 0 && spec_ts_in_range(msgs[a[0]].timestamp, opt_str(q.filters.after), opt_str(q.filters.before))
}

/// Whether anchor position `k` holds the earliest anchor.
pub open spec fn spec_earliest(a: Seq<int>, k: int) -> bool {
    0 <= k < a.len() && forall|j: int| 0 <= j < a.len() ==> a[k] <= #[trigger] a[j]
}

/// The date filter applies to a file's earliest anchor: a file takes part
/// exactly when the query anchors somewhere in it and the timestamp of its
/// earliest anchor message passes the `after:`/`before:` bounds.
pub proof fn lemma_file_counts_by_earliest_anchor(msgs: Seq<MessageView>, q: CompiledQuery)
    ensures
        spec_file_counts(msgs, q) <==> (
            spec_eval_anchors(msgs, q).len() > 0
            && forall|k: int| #[trigger] spec_earliest(spec_eval_anchors(msgs, q), k) ==> spec_ts_in_range(
                msgs[spec_eval_anchors(msgs, q)[k]].timestamp, opt_str(q.filters.after), opt_str(q.filters.before))),
{
    let a = spec_eval_anchors(msgs, q);
    lemma_anchors_respect_role(msgs, q);
    if a.len() > 0 {
        assert forall|j: int| 0 <= j < a.len() implies a[0] <= #[trigger] a[j] by {
            if j > 0 {
                assert(a[0] < a[j]);
            }
        }
        assert(spec_earliest(a, 0));
        assert forall|k: int| #[trigger] spec_earliest(a, k) implies a[k] == a[0] by {
            assert(a[k] <= a[0]);
            if k > 0 {
                assert(a[0] < a[k]);
            }
        }
    }
}

/// The windows a session contributes from its first `n` files: each file
/// that takes part adds its result windows, up to the per-session cap.
pub open spec fn spec_session_windows(files: Seq<ParsedFile>, q: CompiledQuery, context: int, n: int) -> Seq<ResultView>
    decreases n,
{
    if n <= 0 || n > files.len() {
        Seq::empty()
    } else {
        let prev = spec_session_windows(files, q, context, n - 1);
        let f = files[n - 1];
        let msgs = msg_views(f.messages@);
        if !spec_file_counts(msgs, q) || prev.len() >= PER_SESSION_WINDOW_CAP {
            prev
        } else {
            prev + spec_session_results(msgs, spec_eval_anchors(msgs, q), context, f.project@,
                PER_SESSION_WINDOW_CAP - prev.len())
        }
    }
}

/// A session contributes at most `PER_SESSION_WINDOW_CAP` windows across
/// all its files (sub-agent transcripts included), so the results span many
/// sessions.
pub proof fn lemma_session_window_cap(files: Seq<ParsedFile>, q: CompiledQuery, context: int, n: int)
    ensures
        spec_session_windows(files, q, context, n).len() <= PER_SESSION_WINDOW_CAP,
    decreases n,
{
    if n > 0 && n <= files.len() {
        lemma_session_window_cap(files, q, context, n - 1);
        let prev = spec_session_windows(files, q, context, n - 1);
        let msgs = msg_views(files[n - 1].messages@);
        lemma_producing_props(spec_eval_anchors(msgs, q), context, msgs.len() as int, PER_SESSION_WINDOW_CAP - prev.len());
    }
}

/// Whether query phrase `t` occurs in a file of the session that takes part.
pub open spec fn spec_term_seen(files: Seq<ParsedFile>, q: CompiledQuery, t: int) -> bool {
    exists|f: int| 0 <= f < files.len() && spec_file_counts(msg_views(files[f].messages@), q)
        && #[trigger] spec_eval_terms(msg_views(files[f].messages@), q).contains(t)
}

/// Whether no anchor of a file that takes part lies so far out that its
/// window end (anchor + `context` + 1) overflows a machine word.
pub open spec fn spec_file_fits(msgs: Seq<MessageView>, q: CompiledQuery, context: int) -> bool {
    spec_file_counts(msgs, q) ==> forall|k: int| 0 <= k < spec_eval_anchors(msgs, q).len()
        ==> #[trigger] spec_eval_anchors(msgs, q)[k] + context + 1 <= usize::MAX
}

/// Whether every file of a session fits (see [`spec_file_fits`]).
pub open spec fn spec_files_fit(files: Seq<ParsedFile>, q: CompiledQuery, context: int) -> bool {
    forall|f: int| 0 <= f < files.len() ==> spec_file_fits(msg_views((#[trigger] files[f]).messages@), q, context)
}

/// Whether every file of every session fits (see [`spec_file_fits`]).
pub open spec fn spec_sessions_fit(sessions: Seq<SessionFiles>, q: CompiledQuery, context: int) -> bool {
    forall|s: int| 0 <= s < sessions.len() ==> spec_files_fit((#[trigger] sessions[s]).files@, q, context)
}

/// Whether one file fits (see [`spec_file_fits`]).
fn file_fits(messages: &[Message], q: &CompiledQuery, context: usize) -> (r: bool)
    ensures
        r == spec_file_fits(msg_views(messages@), *q, context as int),
{
    let ghost msgs = msg_views(messages@);
    let eval = evaluate(messages, q);
    proof {
        lemma_anchors_bounded(msgs, *q);
    }
    if eval.matches.len() == 0 {
        return true;
    }
    let first = eval.matches[0].message_index;
    assert(match_indices(eval.matches@)[0] == first as int);
    if !ts_in_range(messages[first].timestamp.as_str(), &q.filters.after, &q.filters.before) {
        return true;
    }
    assert(spec_file_counts(msgs, *q));
    let mut k: usize = 0;
    while k < eval.matches.len()
        invariant
            k <= eval.matches@.len(),
            match_indices(eval.matches@) == spec_eval_anchors(msgs, *q),
            msgs == msg_views(messages@),
            spec_file_counts(msgs, *q),
            forall|j: int| 0 <= j < spec_eval_anchors(msgs, *q).len() ==> 0 <= #[trigger] spec_eval_anchors(msgs, *q)[j] < msgs.len(),
            forall|j: int| 0 <= j < k ==> #[trigger] spec_eval_anchors(msgs, *q)[j] + context + 1 <= usize::MAX,
        decreases eval.matches@.len() - k,
    {
        let idx = eval.matches[k].message_index;
        assert(match_indices(eval.matches@)[k as int] == idx as int);
        let fits = match idx.checked_add(context) {
            Some(a) => a < usize::MAX,
            None => false,
        };
        if !fits {
            assert(spec_eval_anchors(msgs, *q)[k as int] + context + 1 > usize::MAX);
            return false;
        }
        k += 1;
    }
    true
}

/// Whether every file of every session fits (see [`spec_file_fits`]).
pub fn sessions_fit(sessions: &Vec<SessionFiles>, q: &CompiledQuery, context: usize) -> (r: bool)
    ensures
        r == spec_sessions_fit(sessions@, *q, context as int),
{
    let mut s: usize = 0;
    while s < sessions.len()
        invariant
            s <= sessions@.len(),
            forall|j: int| 0 <= j < s ==> spec_files_fit((#[trigger] sessions@[j]).files@, *q, context as int),
        decreases sessions@.len() - s,
    {
        let files = &sessions[s].files;
        let mut f: usize = 0;
        while f < files.len()
            invariant
                f <= files@.len(),
                s < sessions@.len(),
                files@ == sessions@[s as int].files@,
                forall|j: int| 0 <= j < f ==> spec_file_fits(msg_views((#[trigger] files@[j]).messages@), *q, context as int),
            decreases files@.len() - f,
        {
            if !file_fits(files[f].messages.as_slice(), q, context) {
                assert(!spec_file_fits(msg_views(sessions@[s as int].files@[f as int].messages@), *q, context as int));
                assert(!spec_files_fit(sessions@[s as int].files@, *q, context as int));
                return false;
            }
            f += 1;
        }
        s += 1;
    }
    true
}

/// Evaluate one session: its windows and, per query phrase, whether it
/// occurs in a file that takes part.
fn score_session(files: &Vec<ParsedFile>, q: &CompiledQuery, context: usize) -> (r: (Vec<SessionResult>, Vec<bool>))
    requires
        spec_files_fit(files@, *q, context as int),
    ensures
        result_views(r.0@) == spec_session_windows(files@, *q, context as int, files@.len() as int),
        r.1@.len() == q.positive_phrases@.len(),
        forall|t: int| 0 <= t < r.1@.len() ==> #[trigger] r.1@[t] == spec_term_seen(files@, *q, t),
{
    let n_terms = q.positive_phrases.len();
    let mut seen: Vec<bool> = Vec::new();
    let mut t: usize = 0;
    while t < n_terms
        invariant
            t <= n_terms,
            seen@.len() == t,
            forall|k: int| 0 <= k < t ==> !#[trigger] seen@[k],
        decreases n_terms - t,
    {
        seen.push(false);
        t += 1;
    }
    let mut windows: Vec<SessionResult> = Vec::new();
    let mut fi: usize = 0;
    while fi < files.len()
        invariant
            fi <= files@.len(),
            n_terms == q.positive_phrases@.len(),
            spec_files_fit(files@, *q, context as int),
            result_views(windows@) == spec_session_windows(files@, *q, context as int, fi as int),
            seen@.len() == n_terms,
            forall|k: int| 0 <= k < n_terms ==> #[trigger] seen@[k] == spec_term_seen(files@.take(fi as int), *q, k),
        decreases files@.len() - fi,
    {
        let f = &files[fi];
        let ghost msgs = msg_views(f.messages@);
        let ghost prev_seen = seen@;
        let eval = evaluate(f.messages.as_slice(), q);
        proof {
            lemma_anchors_bounded(msgs, *q);
            assert(files@.take(fi + 1) =~= files@.take(fi as int).push(files@[fi as int]));
        }
        let counts = if eval.matches.len() == 0 {
            false
        } else {
            let first = eval.matches[0].message_index;
            assert(match_indices(eval.matches@)[0] == first as int);
            ts_in_range(f.messages[first].timestamp.as_str(), &q.filters.after, &q.filters.before)
        };
        assert(counts == spec_file_counts(msgs, *q));
        if counts {
            let mut k: usize = 0;
            while k < eval.matched_terms.len()
                invariant
                    k <= eval.matched_terms@.len(),
                    ints(eval.matched_terms@) == spec_eval_terms(msgs, *q),
                    seen@.len() == n_terms,
                    forall|x: int| 0 <= x < n_terms ==> #[trigger] seen@[x]
                        == (prev_seen[x] || ints(eval.matched_terms@).take(k as int).contains(x)),
                decreases eval.matched_terms@.len() - k,
            {
                let tt = eval.matched_terms[k];
                let ghost before = seen@;
                if tt < n_terms {
                    seen.set(tt, true);
                }
                proof {
                    let mt = ints(eval.matched_terms@);
                    assert(mt.take(k + 1) =~= mt.take(k as int).push(tt as int));
                    assert forall|x: int| 0 <= x < n_terms implies #[trigger] seen@[x]
                        == (prev_seen[x] || mt.take(k + 1).contains(x)) by {
                        if x == tt as int {
                            assert(mt.take(k + 1)[k as int] == x);
                        } else {
                            assert(seen@[x] == before[x]);
                            if mt.take(k + 1).contains(x) {
                                let w = choose|w: int| 0 <= w < mt.take(k + 1).len() && #[trigger] mt.take(k + 1)[w] == x;
                                assert(w < k);
                                assert(mt.take(k as int)[w] == x);
                            }
                            if mt.take(k as int).contains(x) {
                                let w = choose|w: int| 0 <= w < mt.take(k as int).len() && #[trigger] mt.take(k as int)[w] == x;
                                assert(mt.take(k + 1)[w] == x);
                            }
                        }
                    }
                }
                k += 1;
            }
            assert(ints(eval.matched_terms@).take(eval.matched_terms@.len() as int) =~= ints(eval.matched_terms@));
        }
        proof {
            let pre = files@.take(fi as int);
            let post = files@.take(fi + 1);
            assert forall|x: int| 0 <= x < n_terms implies #[trigger] seen@[x] == spec_term_seen(post, *q, x) by {
                if spec_term_seen(post, *q, x) {
                    let g = choose|g: int| 0 <= g < post.len() && spec_file_counts(msg_views(post[g].messages@), *q)
                        && #[trigger] spec_eval_terms(msg_views(post[g].messages@), *q).contains(x);
                    if g < fi {
                        assert(pre[g] == post[g]);
                        assert(spec_term_seen(pre, *q, x));
                    }
                }
                if spec_term_seen(pre, *q, x) {
                    let g = choose|g: int| 0 <= g < pre.len() && spec_file_counts(msg_views(pre[g].messages@), *q)
                        && #[trigger] spec_eval_terms(msg_views(pre[g].messages@), *q).contains(x);
                    assert(pre[g] == post[g]);
                }
                if counts && spec_eval_terms(msgs, *q).contains(x) {
                    assert(post[fi as int] == files@[fi as int]);
                }
            }
        }
        let added = windows.len();
        if counts && added < PER_SESSION_WINDOW_CAP {
            assert(spec_file_fits(msg_views(files@[fi as int].messages@), *q, context as int));
            assert forall|k: int| 0 <= k < eval.matches@.len() implies
                (#[trigger] eval.matches@[k]).message_index + context + 1 <= usize::MAX by {
                assert(match_indices(eval.matches@)[k] == eval.matches@[k].message_index as int);
            }
            assert forall|k: int| 0 <= k < eval.matches@.len() implies (#[trigger] eval.matches@[k]).message_index < f.messages@.len() by {
                assert(match_indices(eval.matches@)[k] == eval.matches@[k].message_index as int);
            }
            let mut sr = build_session_result(
                f.messages.as_slice(),
                eval.matches.as_slice(),
                context,
                f.project.as_str(),
                PER_SESSION_WINDOW_CAP - added,
            );
            let ghost before = result_views(windows@);
            let ghost srv = result_views(sr@);
            windows.append(&mut sr);
            assert(result_views(windows@) =~= before + srv);
        }
        fi += 1;
    }
    assert(files@.take(files@.len() as int) =~= files@);
    (windows, seen)
}


/// A session ready to be ranked: the query phrases it contains, its
/// modification time and its result windows.
pub struct ScoredSession {
    pub matched_terms: Vec<usize>,
    pub mtime: i128,
    pub windows: Vec<SessionResult>,
}

/// The mathematical content of a [`ScoredSession`].
pub struct ScoredView {
    pub matched_terms: Seq<int>,
    pub mtime: i128,
    pub windows: Seq<ResultView>,
}

/// The view of a scored session.
pub open spec fn scored_view(s: ScoredSession) -> ScoredView {
    ScoredView { matched_terms: ints(s.matched_terms@), mtime: s.mtime, windows: result_views(s.windows@) }
}

/// One session to score: its parsed files and its modification time.
pub struct SessionFiles {
    pub files: Vec<ParsedFile>,
    pub mtime: i128,
}

/// The scored form of a session, or `None` when it contributes no window.
pub open spec fn spec_scored(s: SessionFiles, q: CompiledQuery, context: int) -> Option<ScoredView> {
    let w = spec_session_windows(s.files@, q, context, s.files@.len() as int);
    if w.len() == 0 {
        None
    } else {
        Some(ScoredView {
            matched_terms: spec_indices_where(q.positive_phrases@.len() as int, |t: int| spec_term_seen(s.files@, q, t)),
            mtime: s.mtime,
            windows: w,
        })
    }
}

/// The scored sessions among the first `n`, in order.
pub open spec fn spec_scored_all(ss: Seq<SessionFiles>, q: CompiledQuery, context: int, n: int) -> Seq<ScoredView>
    decreases n,
{
    if n <= 0 || n > ss.len() {
        Seq::empty()
    } else {
        let prev = spec_scored_all(ss, q, context, n - 1);
        match spec_scored(ss[n - 1], q, context) {
            Some(v) => prev.push(v),
            None => prev,
        }
    }
}

/// In how many scored sessions query phrase `t` occurs.
pub open spec fn spec_df(scored: Seq<ScoredView>, t: int) -> nat
    decreases scored.len(),
{
    if scored.len() == 0 {
        0
    } else {
        spec_df(scored.drop_last(), t) + if scored.last().matched_terms.contains(t) { 1nat } else { 0nat }
    }
}

proof fn lemma_df_bounded(scored: Seq<ScoredView>, t: int)
    ensures
        spec_df(scored, t) <= scored.len(),
    decreases scored.len(),
{
    if scored.len() > 0 {
        lemma_df_bounded(scored.drop_last(), t);
    }
}

proof fn lemma_scored_len(ss: Seq<SessionFiles>, q: CompiledQuery, context: int, n: int)
    requires
        0 <= n <= ss.len(),
    ensures
        spec_scored_all(ss, q, context, n).len() <= n,
    decreases n,
{
    if n > 0 {
        lemma_scored_len(ss, q, context, n - 1);
    }
}

/// Evaluate the sessions of a tier, in order: those that contribute a
/// window, with the query phrases they contain; and for each query phrase,
/// the number of those sessions containing it (its document frequency).
pub fn score_sessions(sessions: &Vec<SessionFiles>, q: &CompiledQuery, context: usize) -> (r: (Vec<ScoredSession>, Vec<usize>))
    requires
        spec_sessions_fit(sessions@, *q, context as int),
    ensures
        r.0@.map_values(|x: ScoredSession| scored_view(x))
            == spec_scored_all(sessions@, *q, context as int, sessions@.len() as int),
        r.1@.len() == q.positive_phrases@.len(),
        forall|t: int| 0 <= t < r.1@.len() ==> #[trigger] r.1@[t]
            == spec_df(spec_scored_all(sessions@, *q, context as int, sessions@.len() as int), t),
{
    let n_terms = q.positive_phrases.len();
    let mut df: Vec<usize> = Vec::new();
    let mut t: usize = 0;
    while t < n_terms
        invariant
            t <= n_terms,
            df@.len() == t,
            forall|k: int| 0 <= k < t ==> #[trigger] df@[k] == 0,
        decreases n_terms - t,
    {
        df.push(0);
        t += 1;
    }
    let mut scored: Vec<ScoredSession> = Vec::new();
    let mut si: usize = 0;
    while si < sessions.len()
        invariant
            si <= sessions@.len(),
            n_terms == q.positive_phrases@.len(),
            spec_sessions_fit(sessions@, *q, context as int),
            scored@.map_values(|x: ScoredSession| scored_view(x)) == spec_scored_all(sessions@, *q, context as int, si as int),
            df@.len() == n_terms,
            forall|k: int| 0 <= k < n_terms ==> #[trigger] df@[k]
                == spec_df(spec_scored_all(sessions@, *q, context as int, si as int), k),
        decreases sessions@.len() - si,
    {
        let ghost prev = spec_scored_all(sessions@, *q, context as int, si as int);
        proof {
            lemma_scored_len(sessions@, *q, context as int, si as int);
        }
        let (windows, seen) = score_session(&sessions[si].files, q, context);
        if windows.len() > 0 {
            let ghost tpred = |t: int| spec_term_seen(sessions@[si as int].files@, *q, t);
            let mut matched_terms: Vec<usize> = Vec::new();
            let mut k: usize = 0;
            while k < n_terms
                invariant
                    k <= n_terms,
                    seen@.len() == n_terms,
                    forall|x: int| 0 <= x < n_terms ==> #[trigger] seen@[x] == tpred(x),
                    ints(matched_terms@) == spec_indices_where(k as int, tpred),
                decreases n_terms - k,
            {
                let ghost before = ints(matched_terms@);
                if seen[k] {
                    matched_terms.push(k);
                    assert(ints(matched_terms@) =~= before.push(k as int));
                }
                k += 1;
            }
            let item = ScoredSession { matched_terms, mtime: sessions[si].mtime, windows };
            let ghost v = scored_view(item);
            proof {
                lemma_indices_bounded(n_terms as int, tpred);
                lemma_indices_sorted(n_terms as int, tpred);
            }
            let mut j: usize = 0;
            while j < item.matched_terms.len()
                invariant
                    j <= item.matched_terms@.len(),
                    df@.len() == n_terms,
                    v == scored_view(item),
                    forall|z: int| 0 <= z < v.matched_terms.len() ==> 0 <= #[trigger] v.matched_terms[z] < n_terms,
                    forall|a: int, b: int| 0 <= a < b < v.matched_terms.len() ==> v.matched_terms[a] < v.matched_terms[b],
                    prev.len() < usize::MAX,
                    forall|x: int| 0 <= x < n_terms ==> #[trigger] df@[x] == spec_df(prev, x)
                        + if v.matched_terms.take(j as int).contains(x) { 1nat } else { 0nat },
                decreases item.matched_terms@.len() - j,
            {
                let tt = item.matched_terms[j];
                proof {
                    lemma_df_bounded(prev, tt as int);
                    assert(v.matched_terms[j as int] == tt as int);
                    let mt = v.matched_terms;
                    if mt.take(j as int).contains(tt as int) {
                        let w = choose|w: int| 0 <= w < mt.take(j as int).len() && #[trigger] mt.take(j as int)[w] == tt as int;
                        assert(mt[w] < mt[j as int]);
                    }
                }
                let ghost before = df@;
                df.set(tt, df[tt] + 1);
                proof {
                    let mt = v.matched_terms;
                    assert(mt.take(j + 1) =~= mt.take(j as int).push(tt as int));
                    assert(mt[j as int] == tt as int);
                    assert forall|x: int| 0 <= x < n_terms implies #[trigger] df@[x] == spec_df(prev, x)
                        + if mt.take(j + 1).contains(x) { 1nat } else { 0nat } by {
                        if x == tt as int {
                            assert(mt.take(j + 1)[j as int] == x);
                            if mt.take(j as int).contains(x) {
                                let w = choose|w: int| 0 <= w < mt.take(j as int).len() && #[trigger] mt.take(j as int)[w] == x;
                                assert(mt[w] < mt[j as int]);
                            }
                        } else {
                            if mt.take(j + 1).contains(x) {
                                let w = choose|w: int| 0 <= w < mt.take(j + 1).len() && #[trigger] mt.take(j + 1)[w] == x;
                                assert(w < j);
                                assert(mt.take(j as int)[w] == x);
                            }
                            if mt.take(j as int).contains(x) {
                                let w = choose|w: int| 0 <= w < mt.take(j as int).len() && #[trigger] mt.take(j as int)[w] == x;
                                assert(mt.take(j + 1)[w] == x);
                            }
                        }
                    }
                }
                j += 1;
            }
            proof {
                assert(v.matched_terms.take(v.matched_terms.len() as int) =~= v.matched_terms);
                assert(spec_scored(sessions@[si as int], *q, context as int) == Some(v));
                let next = spec_scored_all(sessions@, *q, context as int, si + 1);
                assert(next == prev.push(v));
                assert(next.drop_last() =~= prev);
            }
            let ghost bs = scored@.map_values(|x: ScoredSession| scored_view(x));
            scored.push(item);
            assert(scored@.map_values(|x: ScoredSession| scored_view(x)) =~= bs.push(v));
        } else {
            proof {
                assert(spec_scored(sessions@[si as int], *q, context as int) is None);
            }
        }
        si += 1;
    }
    (scored, df)
}

/// Score a tier's sessions (see [`score_sessions`]) when every window end
/// fits a machine word; `None` when some anchor of a file that takes part
/// lies too far out for its window to be computed.
pub fn score_tier(sessions: &Vec<SessionFiles>, q: &CompiledQuery, context: usize) -> (r: Option<(Vec<ScoredSession>, Vec<usize>)>)
    ensures
        r is Some <==> spec_sessions_fit(sessions@, *q, context as int),
        r matches Some(v) ==> {
            &&& v.0@.map_values(|x: ScoredSession| scored_view(x))
                == spec_scored_all(sessions@, *q, context as int, sessions@.len() as int)
            &&& v.1@.len() == q.positive_phrases@.len()
            &&& forall|t: int| 0 <= t < v.1@.len() ==> #[trigger] v.1@[t]
                == spec_df(spec_scored_all(sessions@, *q, context as int, sessions@.len() as int), t)
        },
{
    if sessions_fit(sessions, q, context) {
        Some(score_sessions(sessions, q, context))
    } else {
        None
    }
}

/// The flattened windows of the sessions, in order.
pub open spec fn spec_all_windows(ss: Seq<ScoredView>) -> Seq<ResultView>
    decreases ss.len(),
{
    if ss.len() == 0 {
        Seq::empty()
    } else {
        spec_all_windows(ss.drop_last()) + ss.last().windows
    }
}

/// The first `m` members of `s` (all of them when there are fewer).
pub open spec fn spec_cap(s: Seq<ResultView>, m: int) -> Seq<ResultView> {
    if m < s.len() { s.take(m) } else { s }
}

/// The first `max_results` windows of the ranked sessions, in rank order.
pub fn collect_windows(ranked: Vec<ScoredSession>, max_results: usize) -> (r: Vec<SessionResult>)
    ensures
        result_views(r@) == spec_cap(spec_all_windows(ranked@.map_values(|x: ScoredSession| scored_view(x))), max_results as int),
{
    let ghost rv = ranked@.map_values(|x: ScoredSession| scored_view(x));
    let total = ranked.len();
    let mut out: Vec<SessionResult> = Vec::new();
    let mut rest = ranked;
    let ghost n = rv.len();
    let mut k: usize = 0;
    assert(rv.take(0) =~= Seq::<ScoredView>::empty());
    while rest.len() > 0
        invariant
            k <= n,
            n == rv.len(),
            n <= usize::MAX,
            rest@.len() + k == n,
            forall|q: int| 0 <= q < rest@.len() ==> scored_view(#[trigger] rest@[q]) == rv[k + q],
            result_views(out@) == spec_cap(spec_all_windows(rv.take(k as int)), max_results as int),
        decreases rest@.len(),
    {
        let ghost prev_all = spec_all_windows(rv.take(k as int));
        assert(rv.take(k + 1).drop_last() =~= rv.take(k as int));
        let ghost next_all = spec_all_windows(rv.take(k + 1));
        let ghost rest_before = rest@;
        let s = rest.remove(0);
        assert(scored_view(s) == rv[k as int]);
        assert(next_all == prev_all + rv[k as int].windows);
        let ghost wv = rv[k as int].windows;
        let mut ws = s.windows;
        let ghost mut w: int = 0;
        while ws.len() > 0 && out.len() < max_results
            invariant
                0 <= w <= wv.len(),
                ws@.len() + w == wv.len(),
                forall|q: int| 0 <= q < ws@.len() ==> (#[trigger] ws@[q])@ == wv[w + q],
                result_views(out@) == spec_cap(prev_all + wv.take(w), max_results as int),
            decreases ws@.len(),
        {
            let ghost cur = prev_all + wv.take(w);
            let x = ws.remove(0);
            let ghost before = result_views(out@);
            out.push(x);
            proof {
                assert(before.len() < max_results);
                assert(before == cur);
                assert(wv.take(w + 1) =~= wv.take(w).push(wv[w]));
                assert(result_views(out@) =~= before.push(wv[w]));
                w = w + 1;
            }
        }
        proof {
            let cur = prev_all + wv.take(w);
            if ws@.len() == 0 {
                assert(wv.take(w) =~= wv);
            } else {
                assert(cur.len() >= max_results) by {
                    assert(result_views(out@).len() >= max_results);
                }
                assert(cur =~= next_all.take(cur.len() as int));
                assert(spec_cap(cur, max_results as int) =~= spec_cap(next_all, max_results as int));
            }
        }
        k += 1;
    }
    assert(rv.take(n as int) =~= rv);
    out
}

} // verus!
