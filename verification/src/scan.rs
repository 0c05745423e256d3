//! Candidate pre-filtering through `rg`: its argument vector and the
//! reading of its answer.
use vstd::prelude::*;
use crate::paths::{path_extension, spec_path_extension};
use crate::query::strs;
use crate::text::{chars_of, chars_equal, string_of};

verus! {

/// The fixed leading arguments: list matching files, case-insensitively,
/// fixed strings, transcript files only.
pub open spec fn spec_rg_flags() -> Seq<Seq<char>> {
    seq!["-l"@, "-i"@, "-F"@, "--glob"@, "*.jsonl"@]
}

/// `-e <phrase>` for each phrase, in order.
pub open spec fn spec_rg_patterns(phrases: Seq<Seq<char>>) -> Seq<Seq<char>>
    decreases phrases.len(),
{
    if phrases.len() == 0 {
        Seq::empty()
    } else {
        spec_rg_patterns(phrases.drop_last()) + seq!["-e"@, phrases.last()]
    }
}

/// The rg argument vector: flags, one `-e <phrase>` per phrase (OR
/// semantics), then the search roots.
pub open spec fn spec_rg_args(phrases: Seq<Seq<char>>, roots: Seq<Seq<char>>) -> Seq<Seq<char>> {
    spec_rg_flags() + spec_rg_patterns(phrases) + roots
}

fn owned(s: &str) -> (r: String)
    ensures
        r@ == s@,
{
    string_of(&chars_of(s))
}

/// Build the rg argument vector for listing files that contain ANY phrase
/// (see [`spec_rg_args`]).
pub fn rg_args(phrases: &Vec<String>, roots: &Vec<String>) -> (r: Vec<String>)
    ensures
        strs(r@) == spec_rg_args(strs(phrases@), strs(roots@)),
{
    let mut args: Vec<String> = Vec::new();
    args.push(owned("-l"));
    args.push(owned("-i"));
    args.push(owned("-F"));
    args.push(owned("--glob"));
    args.push(owned("*.jsonl"));
    assert(strs(args@) =~= spec_rg_flags());
    let ghost ps = strs(phrases@);
    let mut i: usize = 0;
    while i < phrases.len()
        invariant
            i <= phrases@.len(),
            ps == strs(phrases@),
            strs(args@) == spec_rg_flags() + spec_rg_patterns(ps.take(i as int)),
        decreases phrases@.len() - i,
    {
        assert(ps.take(i + 1).drop_last() =~= ps.take(i as int));
        let ghost before = strs(args@);
        args.push(owned("-e"));
        let p = phrases[i].clone();
        assert(p@ == ps[i as int]);
        args.push(p);
        assert(strs(args@) =~= before + seq!["-e"@, ps[i as int]]);
        assert(spec_rg_patterns(ps.take(i + 1)) == spec_rg_patterns(ps.take(i as int)) + seq!["-e"@, ps[i as int]]);
        assert(strs(args@) =~= spec_rg_flags() + spec_rg_patterns(ps.take(i + 1)));
        i += 1;
    }
    assert(ps.take(ps.len() as int) =~= ps);
    let ghost head = strs(args@);
    let ghost rs = strs(roots@);
    let mut j: usize = 0;
    while j < roots.len()
        invariant
            j <= roots@.len(),
            rs == strs(roots@),
            strs(args@) == head + rs.take(j as int),
        decreases roots@.len() - j,
    {
        let ghost before = strs(args@);
        let r = roots[j].clone();
        assert(r@ == rs[j as int]);
        args.push(r);
        assert(strs(args@) =~= before.push(rs[j as int]));
        assert(rs.take(j + 1) =~= rs.take(j as int).push(rs[j as int]));
        assert(strs(args@) =~= head + rs.take(j + 1));
        j += 1;
    }
    assert(rs.take(rs.len() as int) =~= rs);
    args
}

/// The rg arguments to run for a tier, or `None` when there is no phrase to
/// look for and the caller must walk the directories instead.
pub fn rg_invocation(phrases: &Vec<String>, roots: &Vec<String>) -> (r: Option<Vec<String>>)
    ensures
        phrases@.len() == 0 ==> r is None,
        phrases@.len() > 0 ==> (r matches Some(a) && strs(a@) == spec_rg_args(strs(phrases@), strs(roots@))),
{
    if phrases.len() == 0 {
        None
    } else {
        Some(rg_args(phrases, roots))
    }
}

/// Whether a path names a transcript file: its extension is `jsonl`.
pub fn is_jsonl(path: &str) -> (r: bool)
    ensures
        r == (spec_path_extension(path@) == Some("jsonl"@)),
{
    match path_extension(path) {
        Some(e) => {
            let ec = chars_of(e.as_str());
            let kw = chars_of("jsonl");
            chars_equal(&ec, &kw)
        },
        None => false,
    }
}

/// Lines of `s` as `str::lines` yields them, scanning the first `n`
/// characters: the finished lines (newline-terminated, a `\r` before the
/// newline removed) and the unfinished tail.
pub open spec fn spec_lines_scan(s: Seq<char>, n: int) -> (Seq<Seq<char>>, Seq<char>)
    decreases n,
{
    if n <= 0 || n > s.len() {
        (Seq::empty(), Seq::empty())
    } else {
        let (done, cur) = spec_lines_scan(s, n - 1);
        if s[n - 1] == '\n' {
            (done.push(spec_strip_cr(cur)), Seq::empty())
        } else {
            (done, cur.push(s[n - 1]))
        }
    }
}

/// A line without its trailing carriage return.
pub open spec fn spec_strip_cr(l: Seq<char>) -> Seq<char> {
    if l.len() > 0 && l.last() == '\r' { l.drop_last() } else { l }
}

/// `str::lines`: the finished lines plus a final unterminated one, if any.
pub open spec fn spec_lines(s: Seq<char>) -> Seq<Seq<char>> {
    let (done, cur) = spec_lines_scan(s, s.len() as int);
    if cur.len() > 0 { done.push(cur) } else { done }
}

/// The non-empty lines of `s`.
pub open spec fn spec_nonempty_lines(s: Seq<char>) -> Seq<Seq<char>> {
    spec_nonempty(spec_lines(s))
}

/// The non-empty members of `ls`, in order.
pub open spec fn spec_nonempty(ls: Seq<Seq<char>>) -> Seq<Seq<char>>
    decreases ls.len(),
{
    if ls.len() == 0 {
        Seq::empty()
    } else if ls.last().len() > 0 {
        spec_nonempty(ls.drop_last()).push(ls.last())
    } else {
        spec_nonempty(ls.drop_last())
    }
}

/// Candidate files from rg's answer: when rg succeeded or found nothing
/// (exit code 1), the non-empty lines of its output; otherwise `None`, and
/// the caller falls back to walking the directories.
pub fn rg_output_files(success: bool, exit_code: Option<i32>, stdout: &str) -> (r: Option<Vec<String>>)
    ensures
        (success || exit_code == Some(1i32)) ==> (r matches Some(v) && strs(v@) == spec_nonempty_lines(stdout@)),
        !(success || exit_code == Some(1i32)) ==> r is None,
{
    if !success && exit_code != Some(1i32) {
        return None;
    }
    let c = chars_of(stdout);
    let mut lines: Vec<String> = Vec::new();
    let mut cur: Vec<char> = Vec::new();
    let ghost mut done: Seq<Seq<char>> = Seq::empty();
    let mut i: usize = 0;
    while i < c.len()
        invariant
            i <= c@.len(),
            c@ == stdout@,
            (done, cur@) == spec_lines_scan(c@, i as int),
            strs(lines@) == spec_nonempty(done),
        decreases c@.len() - i,
    {
        if c[i] == '\n' {
            let mut line = cur;
            if line.len() > 0 && line[line.len() - 1] == '\r' {
                line.pop();
            }
            assert(line@ == spec_strip_cr(cur@));
            let ghost before = strs(lines@);
            proof {
                assert(done.push(line@).drop_last() =~= done);
            }
            if line.len() > 0 {
                lines.push(string_of(&line));
                assert(strs(lines@) =~= before.push(line@));
            }
            proof {
                done = done.push(line@);
            }
            cur = Vec::new();
        } else {
            cur.push(c[i]);
        }
        i += 1;
    }
    proof {
        assert(done.push(cur@).drop_last() =~= done);
    }
    let ghost before = strs(lines@);
    if cur.len() > 0 {
        lines.push(string_of(&cur));
        assert(strs(lines@) =~= before.push(cur@));
    }
    assert(c@ == stdout@);
    Some(lines)
}

} // verus!
