//! Grouping items by a string key, first appearance first.
use vstd::prelude::*;
use crate::query::strs;
use crate::search::ints;
use crate::text::{chars_of, chars_equal};

verus! {

/// Whether position `i`, holding `key`, is listed in a group with that key.
pub open spec fn spec_in_group(groups: Seq<(Seq<char>, Seq<int>)>, i: int, key: Seq<char>) -> bool {
    exists|g: int, a: int| 0 <= g < groups.len() && 0 <= a < groups[g].1.len()
        && #[trigger] groups[g].1[a] == i && groups[g].0 == key
}

/// Whether `groups` groups the positions of `keys`: every group has a
/// distinct key and lists, ascending, exactly the positions holding that
/// key; groups appear in the order their keys first appear.
pub open spec fn spec_grouping(keys: Seq<Seq<char>>, groups: Seq<(Seq<char>, Seq<int>)>) -> bool {
    &&& forall|g: int, h: int| 0 <= g < h < groups.len() ==> groups[g].0 != groups[h].0
    &&& forall|g: int, a: int, b: int| 0 <= g < groups.len() && 0 <= a < b < groups[g].1.len()
        ==> groups[g].1[a] < groups[g].1[b]
    &&& forall|g: int, a: int| 0 <= g < groups.len() && 0 <= a < groups[g].1.len()
        ==> 0 <= #[trigger] groups[g].1[a] < keys.len() && keys[groups[g].1[a]] == groups[g].0
    &&& forall|i: int| 0 <= i < keys.len() ==> spec_in_group(groups, i, #[trigger] keys[i])
    &&& forall|g: int| 0 <= g < groups.len() ==> #[trigger] groups[g].1.len() > 0
    &&& forall|g: int, h: int| 0 <= g < h < groups.len() ==> groups[g].1[0] < groups[h].1[0]
}

/// The views of a vector of groups.
pub open spec fn group_views(gs: Seq<(String, Vec<usize>)>) -> Seq<(Seq<char>, Seq<int>)> {
    gs.map_values(|g: (String, Vec<usize>)| (g.0@, ints(g.1@)))
}

/// Positions of `keys` grouped by equal key (see [`spec_grouping`]).
pub fn group_by_key(keys: &Vec<String>) -> (r: Vec<(String, Vec<usize>)>)
    ensures
        spec_grouping(strs(keys@), group_views(r@)),
{
    let ghost ks = strs(keys@);
    let mut groups: Vec<(String, Vec<usize>)> = Vec::new();
    let mut i: usize = 0;
    while i < keys.len()
        invariant
            i <= keys@.len(),
            ks == strs(keys@),
            spec_grouping(ks.take(i as int), group_views(groups@)),
            forall|g: int, a: int| 0 <= g < groups@.len() && 0 <= a < groups@[g].1@.len()
                ==> #[trigger] groups@[g].1@[a] < i,
        decreases keys@.len() - i,
    {
        let k = chars_of(keys[i].as_str());
        let mut found: Option<usize> = None;
        let mut g: usize = 0;
        while g < groups.len()
            invariant
                g <= groups@.len(),
                k@ == ks[i as int],
                found matches Some(f) ==> f < groups@.len() && groups@[f as int].0@ == k@,
                found is None ==> forall|h: int| 0 <= h < g ==> (#[trigger] groups@[h]).0@ != k@,
            decreases groups@.len() - g,
        {
            if found.is_none() {
                let gk = chars_of(groups[g].0.as_str());
                if chars_equal(&gk, &k) {
                    found = Some(g);
                }
            }
            g += 1;
        }
        let ghost old_views = group_views(groups@);
        let ghost pre = ks.take(i as int);
        let ghost post = ks.take(i + 1);
        assert(forall|j: int| 0 <= j < i ==> pre[j] == post[j]);
        match found {
            Some(f) => {
                let mut members = Vec::new();
                std::mem::swap(&mut members, &mut groups[f].1);
                let ghost old_members = ints(members@);
                members.push(i);
                std::mem::swap(&mut members, &mut groups[f].1);
                let ghost nv = group_views(groups@);
                assert(nv.len() == old_views.len());
                assert(forall|h: int| 0 <= h < nv.len() && h != f ==> nv[h] == old_views[h]);
                assert(nv[f as int].1 =~= old_members.push(i as int));
                assert(nv[f as int].0 == old_views[f as int].0);
                assert(forall|h: int| 0 <= h < nv.len() ==> #[trigger] nv[h].0 == old_views[h].0);
                assert(forall|h: int| 0 <= h < nv.len() ==> #[trigger] nv[h].1.len() > 0);
                assert forall|j: int| 0 <= j < post.len() implies spec_in_group(nv, j, post[j]) by {
                    if j == i {
                        assert(nv[f as int].1[nv[f as int].1.len() - 1] == j);
                    } else {
                        assert(pre[j] == post[j]);
                        assert(spec_in_group(old_views, j, pre[j]));
                        let (g, a) = choose|g: int, a: int| 0 <= g < old_views.len()
                            && 0 <= a < old_views[g].1.len() && #[trigger] old_views[g].1[a] == j
                            && old_views[g].0 == pre[j];
                        assert(nv[g].1[a] == j);
                    }
                }
                assert forall|g: int, a: int, b: int| 0 <= g < nv.len() && 0 <= a < b < nv[g].1.len()
                    implies nv[g].1[a] < nv[g].1[b] by {
                    if g == f as int && b == nv[g].1.len() - 1 {
                        assert(old_views[g].1[a] < i);
                    }
                }
                assert forall|g: int, a: int| 0 <= g < nv.len() && 0 <= a < nv[g].1.len()
                    implies 0 <= #[trigger] nv[g].1[a] < post.len() && post[nv[g].1[a]] == nv[g].0 by {
                    if g == f as int && a == nv[g].1.len() - 1 {
                    } else {
                        assert(nv[g].1[a] == old_views[g].1[a]);
                    }
                }
                assert forall|g: int, h: int| 0 <= g < h < nv.len() implies nv[g].1[0] < nv[h].1[0] by {
                    assert(nv[g].1[0] == old_views[g].1[0]);
                    assert(nv[h].1[0] == old_views[h].1[0]);
                }
                assert(spec_grouping(post, nv));
            },
            None => {
                let mut members = Vec::new();
                members.push(i);
                groups.push((keys[i].clone(), members));
                let ghost nv = group_views(groups@);
                assert(ints(members@) =~= seq![i as int]);
                assert(nv =~= old_views.push((ks[i as int], seq![i as int])));
                let ghost last = nv.len() - 1;
                assert(forall|h: int| 0 <= h < last ==> #[trigger] nv[h] == old_views[h]);
                assert(forall|h: int| 0 <= h < last ==> #[trigger] nv[h].0 != nv[last].0);
                assert(forall|h: int| 0 <= h < last ==> #[trigger] nv[h].1[0] < i);
                assert forall|g: int, a: int| 0 <= g < nv.len() && 0 <= a < nv[g].1.len()
                    implies 0 <= #[trigger] nv[g].1[a] < post.len() && post[nv[g].1[a]] == nv[g].0 by {
                    if g < last {
                        assert(nv[g].1[a] == old_views[g].1[a]);
                    }
                }
                assert forall|j: int| 0 <= j < post.len() implies spec_in_group(nv, j, post[j]) by {
                    if j == i {
                        assert(nv[nv.len() - 1].1[0] == j);
                        assert(nv[nv.len() - 1].0 == post[j]);
                    } else {
                        assert(pre[j] == post[j]);
                        assert(spec_in_group(old_views, j, pre[j]));
                        let (g, a) = choose|g: int, a: int| 0 <= g < old_views.len()
                            && 0 <= a < old_views[g].1.len() && #[trigger] old_views[g].1[a] == j
                            && old_views[g].0 == pre[j];
                        assert(nv[g].1[a] == j);
                    }
                }
                assert(spec_grouping(post, nv));
            },
        }
        i += 1;
    }
    assert(ks.take(keys@.len() as int) =~= ks);
    assert(forall|j: int| 0 <= j < ks.len() ==> ks[j] == ks.take(keys@.len() as int)[j]);
    groups
}

} // verus!
