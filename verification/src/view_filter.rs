//! Solo, Hide and Pin-to-Left views of the commit graph.
use std::collections::VecDeque;

use vstd::prelude::*;
use vstd::set_lib::*;

use crate::dag_layout::{last_row_of, lemma_last_row_upto_found, lemma_row_of_id_bounds, row_of_id};
use crate::models::{same_commit, CommitInfo, DagEdge, DagLayout, DagNode, RefType};

verus! {

// ---------------------------------------------------------------------------
// Sets of branch names
// ---------------------------------------------------------------------------

/// `name` is one of the strings of `v`.
pub open spec fn has_name(v: Seq<String>, name: Seq<char>) -> bool {
    exists|i: int| 0 <= i < v.len() && #[trigger] v[i]@ == name
}

/// The set of the strings of `v`.
pub open spec fn name_set(v: Seq<String>) -> Set<Seq<char>> {
    Set::new(|s: Seq<char>| has_name(v, s))
}

/// The text of each string of `v`, in order.
pub open spec fn texts(v: Seq<String>) -> Seq<Seq<char>> {
    v.map_values(|s: String| s@)
}

/// Whether `name` is one of the strings of `v`.
pub fn contains_name(v: &Vec<String>, name: &String) -> (b: bool)
    ensures
        b == has_name(v@, name@),
{
    let mut i: usize = 0;
    while i < v.len()
        invariant
            i <= v@.len(),
            forall|j: int| 0 <= j < i ==> #[trigger] v@[j]@ != name@,
        decreases v@.len() - i,
    {
        if v[i] == *name {
            return true;
        }
        i = i + 1;
    }
    false
}

/// A name occurs among the strings of `v` exactly when it occurs in their texts.
proof fn lemma_has_name_texts(v: Seq<String>, s: Seq<char>)
    ensures
        has_name(v, s) <==> texts(v).contains(s),
{
    if has_name(v, s) {
        let i = choose|i: int| 0 <= i < v.len() && #[trigger] v[i]@ == s;
        assert(texts(v)[i] == s);
    }
    if texts(v).contains(s) {
        let i = choose|i: int| 0 <= i < texts(v).len() && texts(v)[i] == s;
        assert(v[i]@ == s);
    }
}

/// No name occurs twice among the strings of `v`.
pub open spec fn names_distinct(v: Seq<String>) -> bool {
    texts(v).no_duplicates()
}

/// Filtering a list without duplicates leaves none.
proof fn lemma_filter_no_duplicates(t: Seq<Seq<char>>, p: spec_fn(Seq<char>) -> bool)
    requires
        t.no_duplicates(),
    ensures
        t.filter(p).no_duplicates(),
    decreases t.len(),
{
    reveal(Seq::filter);
    if t.len() > 0 {
        let init = t.drop_last();
        assert(init.no_duplicates()) by {
            assert forall|i: int, j: int| 0 <= i < init.len() && 0 <= j < init.len() && i != j implies init[i]
                != init[j] by {
                assert(init[i] == t[i] && init[j] == t[j]);
            }
        }
        lemma_filter_no_duplicates(init, p);
        if p(t.last()) {
            let f = init.filter(p);
            let g = f.push(t.last());
            assert forall|i: int, j: int| 0 <= i < g.len() && 0 <= j < g.len() && i != j implies g[i] != g[j] by {
                if i == f.len() || j == f.len() {
                    let k = if i == f.len() { j } else { i };
                    init.lemma_filter_contains_rev(p, f[k]);
                    assert(f.contains(f[k]));
                    let m = choose|m: int| 0 <= m < init.len() && init[m] == f[k];
                    assert(t[m] != t[t.len() - 1]);
                }
            }
        }
    }
}

/// Adding a name that is not yet there keeps the names distinct.
proof fn lemma_push_new_name(v: Seq<String>, x: String)
    requires
        names_distinct(v),
        !has_name(v, x@),
    ensures
        names_distinct(v.push(x)),
{
    let t = texts(v.push(x));
    assert forall|i: int, j: int| 0 <= i < t.len() && 0 <= j < t.len() && i != j implies t[i] != t[j] by {
        if i < v.len() && j < v.len() {
            assert(t[i] == texts(v)[i] && t[j] == texts(v)[j]);
        } else if i < v.len() {
            assert(t[i] == v[i]@);
        } else if j < v.len() {
            assert(t[j] == v[j]@);
        }
    }
}

/// The strings of `v` other than `name`, in order.
fn without_name(v: &Vec<String>, name: &String) -> (r: Vec<String>)
    ensures
        texts(r@) == texts(v@).filter(|s: Seq<char>| s != name@),
        name_set(r@) == name_set(v@).remove(name@),
        names_distinct(v@) ==> names_distinct(r@),
{
    let ghost keep = |s: Seq<char>| s != name@;
    let mut r: Vec<String> = Vec::new();
    let mut i: usize = 0;
    while i < v.len()
        invariant
            i <= v@.len(),
            keep == (|s: Seq<char>| s != name@),
            texts(r@) == texts(v@.take(i as int)).filter(keep),
        decreases v@.len() - i,
    {
        proof {
            reveal(Seq::filter);
            assert(texts(v@.take(i + 1)).drop_last() =~= texts(v@.take(i as int)));
            assert(texts(v@.take(i + 1)).last() == v@[i as int]@);
        }
        let ghost r_old = r@;
        if v[i] != *name {
            r.push(v[i].clone());
            assert(texts(r@) =~= texts(r_old).push(v@[i as int]@));
        }
        i = i + 1;
    }
    proof {
        assert(v@.take(v@.len() as int) =~= v@);
        let t = texts(v@);
        assert forall|s: Seq<char>| name_set(r@).contains(s) <==> name_set(v@).remove(name@).contains(s) by {
            lemma_has_name_texts(r@, s);
            lemma_has_name_texts(v@, s);
            if t.filter(keep).contains(s) {
                t.lemma_filter_contains_rev(keep, s);
                let j = choose|j: int| 0 <= j < t.filter(keep).len() && t.filter(keep)[j] == s;
                t.lemma_filter_pred(keep, j);
            }
            if t.contains(s) && s != name@ {
                let j = choose|j: int| 0 <= j < t.len() && t[j] == s;
                t.lemma_filter_contains(keep, j);
            }
        }
        assert(name_set(r@) =~= name_set(v@).remove(name@));
        if names_distinct(v@) {
            lemma_filter_no_duplicates(t, keep);
        }
    }
    r
}

// ---------------------------------------------------------------------------
// ViewFilter
// ---------------------------------------------------------------------------

/// Manages Solo, Hide, and Pin to Left view filter state for the commit graph.
#[derive(Debug, Clone, Default)]
pub struct ViewFilter {
    /// Branch names that are solo'd: only their ancestors are visible.
    pub soloed_branches: Vec<String>,
    /// Branch names that are hidden: their exclusive commits are invisible.
    pub hidden_branches: Vec<String>,
    /// Ordered list of branches pinned to the left columns.
    pub pinned_left_branches: Vec<String>,
}

impl ViewFilter {
    /// Create an empty filter with no solo, hide, or pin state.
    pub fn new() -> (vf: Self)
        ensures
            vf.soloed_branches@.len() == 0,
            vf.hidden_branches@.len() == 0,
            vf.pinned_left_branches@.len() == 0,
            names_distinct(vf.soloed_branches@),
            names_distinct(vf.hidden_branches@),
            names_distinct(vf.pinned_left_branches@),
    {
        proof {
            assert(texts(Seq::<String>::empty()) =~= Seq::<Seq<char>>::empty());
        }
        ViewFilter { soloed_branches: Vec::new(), hidden_branches: Vec::new(), pinned_left_branches: Vec::new() }
    }

    pub fn solo_branch(&mut self, name: &str)
        ensures
            name_set(final(self).soloed_branches@) == name_set(old(self).soloed_branches@).insert(name@),
            names_distinct(old(self).soloed_branches@) ==> names_distinct(final(self).soloed_branches@),
            final(self).hidden_branches == old(self).hidden_branches,
            final(self).pinned_left_branches == old(self).pinned_left_branches,
    {
        let s = name.to_owned();
        if !contains_name(&self.soloed_branches, &s) {
            proof {
                if names_distinct(self.soloed_branches@) {
                    lemma_push_new_name(self.soloed_branches@, s);
                }
            }
            self.soloed_branches.push(s);
            assert(self.soloed_branches@[self.soloed_branches@.len() - 1]@ == name@);
        }
        proof {
            let old_v = old(self).soloed_branches@;
            let new_v = self.soloed_branches@;
            assert forall|x: Seq<char>| has_name(new_v, x) <==> has_name(old_v, x) || x == name@ by {
                if has_name(old_v, x) {
                    let j = choose|j: int| 0 <= j < old_v.len() && #[trigger] old_v[j]@ == x;
                    assert(new_v[j]@ == x);
                }
                if has_name(new_v, x) && !has_name(old_v, x) {
                    let j = choose|j: int| 0 <= j < new_v.len() && #[trigger] new_v[j]@ == x;
                    if j < old_v.len() {
                        assert(old_v[j]@ == x);
                    }
                }
            }
            assert(name_set(new_v) =~= name_set(old_v).insert(name@));
        }
    }

    pub fn unsolo_branch(&mut self, name: &str)
        ensures
            name_set(final(self).soloed_branches@) == name_set(old(self).soloed_branches@).remove(name@),
            names_distinct(old(self).soloed_branches@) ==> names_distinct(final(self).soloed_branches@),
            final(self).hidden_branches == old(self).hidden_branches,
            final(self).pinned_left_branches == old(self).pinned_left_branches,
    {
        let s = name.to_owned();
        self.soloed_branches = without_name(&self.soloed_branches, &s);
    }

    pub fn hide_branch(&mut self, name: &str)
        ensures
            name_set(final(self).hidden_branches@) == name_set(old(self).hidden_branches@).insert(name@),
            names_distinct(old(self).hidden_branches@) ==> names_distinct(final(self).hidden_branches@),
            final(self).soloed_branches == old(self).soloed_branches,
            final(self).pinned_left_branches == old(self).pinned_left_branches,
    {
        let s = name.to_owned();
        if !contains_name(&self.hidden_branches, &s) {
            proof {
                if names_distinct(self.hidden_branches@) {
                    lemma_push_new_name(self.hidden_branches@, s);
                }
            }
            self.hidden_branches.push(s);
            assert(self.hidden_branches@[self.hidden_branches@.len() - 1]@ == name@);
        }
        proof {
            let old_v = old(self).hidden_branches@;
            let new_v = self.hidden_branches@;
            assert forall|x: Seq<char>| has_name(new_v, x) <==> has_name(old_v, x) || x == name@ by {
                if has_name(old_v, x) {
                    let j = choose|j: int| 0 <= j < old_v.len() && #[trigger] old_v[j]@ == x;
                    assert(new_v[j]@ == x);
                }
                if has_name(new_v, x) && !has_name(old_v, x) {
                    let j = choose|j: int| 0 <= j < new_v.len() && #[trigger] new_v[j]@ == x;
                    if j < old_v.len() {
                        assert(old_v[j]@ == x);
                    }
                }
            }
            assert(name_set(new_v) =~= name_set(old_v).insert(name@));
        }
    }

    pub fn unhide_branch(&mut self, name: &str)
        ensures
            name_set(final(self).hidden_branches@) == name_set(old(self).hidden_branches@).remove(name@),
            names_distinct(old(self).hidden_branches@) ==> names_distinct(final(self).hidden_branches@),
            final(self).soloed_branches == old(self).soloed_branches,
            final(self).pinned_left_branches == old(self).pinned_left_branches,
    {
        let s = name.to_owned();
        self.hidden_branches = without_name(&self.hidden_branches, &s);
    }

    /// Pin a branch to the left. Appended at the end of the pinned list.
    pub fn pin_left(&mut self, name: &str)
        ensures
            has_name(old(self).pinned_left_branches@, name@) ==> texts(final(self).pinned_left_branches@)
                == texts(old(self).pinned_left_branches@),
            !has_name(old(self).pinned_left_branches@, name@) ==> texts(
                final(self).pinned_left_branches@,
            ) == texts(old(self).pinned_left_branches@).push(name@),
            names_distinct(old(self).pinned_left_branches@) ==> names_distinct(final(self).pinned_left_branches@),
            final(self).soloed_branches == old(self).soloed_branches,
            final(self).hidden_branches == old(self).hidden_branches,
    {
        let s = name.to_owned();
        if !contains_name(&self.pinned_left_branches, &s) {
            proof {
                if names_distinct(self.pinned_left_branches@) {
                    lemma_push_new_name(self.pinned_left_branches@, s);
                }
            }
            self.pinned_left_branches.push(s);
            assert(texts(self.pinned_left_branches@) =~= texts(old(self).pinned_left_branches@).push(name@));
        }
    }

    pub fn unpin_left(&mut self, name: &str)
        ensures
            texts(final(self).pinned_left_branches@) == texts(old(self).pinned_left_branches@).filter(
                |s: Seq<char>| s != name@,
            ),
            names_distinct(old(self).pinned_left_branches@) ==> names_distinct(final(self).pinned_left_branches@),
            final(self).soloed_branches == old(self).soloed_branches,
            final(self).hidden_branches == old(self).hidden_branches,
    {
        let s = name.to_owned();
        self.pinned_left_branches = without_name(&self.pinned_left_branches, &s);
    }

    /// Clear all solo, hidden, and pinned state.
    pub fn reset_view(&mut self)
        ensures
            final(self).soloed_branches@.len() == 0,
            final(self).hidden_branches@.len() == 0,
            final(self).pinned_left_branches@.len() == 0,
            names_distinct(final(self).soloed_branches@),
            names_distinct(final(self).hidden_branches@),
            names_distinct(final(self).pinned_left_branches@),
    {
        proof {
            assert(texts(Seq::<String>::empty()) =~= Seq::<Seq<char>>::empty());
        }
        self.soloed_branches.clear();
        self.hidden_branches.clear();
        self.pinned_left_branches.clear();
    }

    pub fn is_solo_active(&self) -> (b: bool)
        ensures
            b == (self.soloed_branches@.len() > 0),
            b == (name_set(self.soloed_branches@) != Set::<Seq<char>>::empty()),
    {
        proof {
            lemma_name_set_empty(self.soloed_branches@);
        }
        self.soloed_branches.len() > 0
    }

    pub fn is_hide_active(&self) -> (b: bool)
        ensures
            b == (self.hidden_branches@.len() > 0),
            b == (name_set(self.hidden_branches@) != Set::<Seq<char>>::empty()),
    {
        proof {
            lemma_name_set_empty(self.hidden_branches@);
        }
        self.hidden_branches.len() > 0
    }
}

proof fn lemma_name_set_empty(v: Seq<String>)
    ensures
        (v.len() > 0) == (name_set(v) != Set::<Seq<char>>::empty()),
{
    if v.len() > 0 {
        assert(name_set(v).contains(v[0]@));
    } else {
        assert(name_set(v) =~= Set::<Seq<char>>::empty());
    }
}


// ---------------------------------------------------------------------------
// Ancestry of branch tips
// ---------------------------------------------------------------------------

/// Some reference on commit `c` carries one of `names`.
pub open spec fn is_tip(c: CommitInfo, names: Set<Seq<char>>) -> bool {
    exists|j: int| 0 <= j < c.refs@.len() && names.contains(#[trigger] c.refs@[j].name@)
}

/// Some row before `k` holds a tip of `names` whose id is `id`.
pub open spec fn tip_id_before(cs: Seq<CommitInfo>, names: Set<Seq<char>>, id: Seq<char>, k: int) -> bool {
    exists|r: int| 0 <= r < k && #[trigger] cs[r].id@ == id && is_tip(cs[r], names)
}

/// The first row from `k` on that holds a tip of `names` with id `id`.
pub open spec fn first_tip_from(cs: Seq<CommitInfo>, names: Set<Seq<char>>, id: Seq<char>, k: int) -> Option<int>
    decreases cs.len() - k,
{
    if 0 <= k < cs.len() {
        if cs[k].id@ == id && is_tip(cs[k], names) {
            Some(k)
        } else {
            first_tip_from(cs, names, id, k + 1)
        }
    } else {
        None
    }
}

/// The row whose parents the walk follows when it reaches `id`: the first tip
/// carrying that id, or else the last row carrying it.
pub open spec fn explored_row(cs: Seq<CommitInfo>, names: Set<Seq<char>>, id: Seq<char>) -> Option<int> {
    match first_tip_from(cs, names, id, 0) {
        Some(r) => Some(r),
        None => match row_of_id(cs, id) {
            Some(r) => Some(r as int),
            None => None,
        },
    }
}

/// `id` is reached from the tips of `names` in at most `k` steps to a parent.
pub open spec fn reached_within(cs: Seq<CommitInfo>, names: Set<Seq<char>>, id: Seq<char>, k: nat) -> bool
    decreases k,
{
    if k == 0 {
        tip_id_before(cs, names, id, cs.len() as int)
    } else {
        ||| reached_within(cs, names, id, (k - 1) as nat)
        ||| exists|r: int, p: int|
            #![trigger cs[r].parent_ids@[p]]
            0 <= r < cs.len() && explored_row(cs, names, cs[r].id@) == Some(r) && reached_within(
                cs,
                names,
                cs[r].id@,
                (k - 1) as nat,
            ) && 0 <= p < cs[r].parent_ids@.len() && cs[r].parent_ids@[p]@ == id
    }
}

/// `id` is an ancestor (or the id) of a tip of `names`.
pub open spec fn in_ancestry(cs: Seq<CommitInfo>, names: Set<Seq<char>>, id: Seq<char>) -> bool {
    exists|k: nat| reached_within(cs, names, id, k)
}

proof fn lemma_first_tip_found(cs: Seq<CommitInfo>, names: Set<Seq<char>>, id: Seq<char>, k: int, t: int)
    requires
        0 <= k <= t < cs.len(),
        cs[t].id@ == id,
        is_tip(cs[t], names),
        forall|r: int| k <= r < t ==> !(#[trigger] cs[r].id@ == id && is_tip(cs[r], names)),
    ensures
        first_tip_from(cs, names, id, k) == Some(t),
    decreases t - k,
{
    if k < t {
        assert(!(cs[k].id@ == id && is_tip(cs[k], names)));
        lemma_first_tip_found(cs, names, id, k + 1, t);
    }
}

proof fn lemma_first_tip_absent(cs: Seq<CommitInfo>, names: Set<Seq<char>>, id: Seq<char>, k: int)
    requires
        0 <= k,
        forall|r: int| k <= r < cs.len() ==> !(#[trigger] cs[r].id@ == id && is_tip(cs[r], names)),
    ensures
        first_tip_from(cs, names, id, k) is None,
    decreases cs.len() - k,
{
    if k < cs.len() {
        assert(!(cs[k].id@ == id && is_tip(cs[k], names)));
        lemma_first_tip_absent(cs, names, id, k + 1);
    }
}

proof fn lemma_first_tip_bounds(cs: Seq<CommitInfo>, names: Set<Seq<char>>, id: Seq<char>, k: int)
    requires
        0 <= k,
    ensures
        first_tip_from(cs, names, id, k) matches Some(t) ==> k <= t < cs.len() && cs[t].id@ == id && is_tip(
            cs[t],
            names,
        ),
    decreases cs.len() - k,
{
    if 0 <= k < cs.len() && !(cs[k].id@ == id && is_tip(cs[k], names)) {
        lemma_first_tip_bounds(cs, names, id, k + 1);
    }
}

proof fn lemma_explored_row_bounds(cs: Seq<CommitInfo>, names: Set<Seq<char>>, id: Seq<char>)
    requires
        cs.len() <= usize::MAX,
    ensures
        explored_row(cs, names, id) matches Some(r) ==> 0 <= r < cs.len() && cs[r].id@ == id,
{
    lemma_first_tip_bounds(cs, names, id, 0);
    lemma_row_of_id_bounds(cs, id);
}

/// Whether one of the references of `c` is named in `names`.
fn has_ref_named(c: &CommitInfo, names: &Vec<String>) -> (b: bool)
    ensures
        b == is_tip(*c, name_set(names@)),
{
    let mut j: usize = 0;
    while j < c.refs.len()
        invariant
            j <= c.refs@.len(),
            forall|m: int| 0 <= m < j ==> !name_set(names@).contains(#[trigger] c.refs@[m].name@),
        decreases c.refs@.len() - j,
    {
        if contains_name(names, &c.refs[j].name) {
            assert(name_set(names@).contains(c.refs@[j as int].name@));
            return true;
        }
        j = j + 1;
    }
    false
}

proof fn lemma_has_name_push(v: Seq<String>, x: String, s: Seq<char>)
    ensures
        has_name(v.push(x), s) <==> has_name(v, s) || s == x@,
{
    if has_name(v, s) {
        let i = choose|i: int| 0 <= i < v.len() && #[trigger] v[i]@ == s;
        assert(v.push(x)[i]@ == s);
    }
    if s == x@ {
        assert(v.push(x)[v.len() as int]@ == s);
    }
    if has_name(v.push(x), s) && s != x@ {
        let i = choose|i: int| 0 <= i < v.len() + 1 && #[trigger] v.push(x)[i]@ == s;
        assert(v[i]@ == s);
    }
}

/// Rows that are pairwise different and all below `n` are at most `n`.
proof fn lemma_distinct_rows_bounded(q: Seq<usize>, n: int)
    requires
        0 <= n,
        forall|a: int, b: int| 0 <= a < b < q.len() ==> q[a] != q[b],
        forall|k: int| 0 <= k < q.len() ==> q[k] < n,
    ensures
        q.len() <= n,
{
    let qi = q.map_values(|x: usize| x as int);
    assert forall|a: int, b: int| 0 <= a < qi.len() && 0 <= b < qi.len() && a != b implies qi[a] != qi[b] by {
        if a < b {
            assert(q[a] != q[b]);
        } else {
            assert(q[b] != q[a]);
        }
    }
    qi.unique_seq_to_set();
    lemma_int_range(0, n);
    assert forall|x: int| qi.to_set().contains(x) implies set_int_range(0, n).contains(x) by {
        let k = choose|k: int| 0 <= k < qi.len() && qi[k] == x;
        assert(q[k] < n);
    }
    lemma_len_subset(qi.to_set(), set_int_range(0, n));
}


/// Every parent id of row `r` is among the strings of `v`.
pub open spec fn parents_seen(cs: Seq<CommitInfo>, r: int, v: Seq<String>) -> bool {
    forall|p: int| 0 <= p < cs[r].parent_ids@.len() ==> has_name(v, #[trigger] cs[r].parent_ids@[p]@)
}

/// The queue of rows still to expand: each row is below `n`, its id has been
/// seen, it is the row the walk expands for that id, and no row is queued twice.
pub open spec fn queue_ok(cs: Seq<CommitInfo>, names: Set<Seq<char>>, seen: Seq<String>, queue: Seq<usize>) -> bool {
    &&& forall|k: int|
        0 <= k < queue.len() ==> {
            &&& (#[trigger] queue[k]) < cs.len()
            &&& has_name(seen, cs[queue[k] as int].id@)
            &&& explored_row(cs, names, cs[queue[k] as int].id@) == Some(queue[k] as int)
        }
    &&& forall|a: int, b: int| 0 <= a < b < queue.len() ==> queue[a] != queue[b]
}

/// Some queued row from position `h` on carries the id `s`.
pub open spec fn queued_id(cs: Seq<CommitInfo>, queue: Seq<usize>, s: Seq<char>, h: int) -> bool {
    exists|k: int| h <= k < queue.len() && cs[#[trigger] queue[k] as int].id@ == s
}

/// Row `r` is queued at some position from `h` on.
pub open spec fn queued_row(queue: Seq<usize>, r: int, h: int) -> bool {
    exists|k: int| h <= k < queue.len() && #[trigger] queue[k] == r
}

/// Whatever the walk has seen and whose row it expands is still queued, or its
/// parents have been seen.
pub open spec fn expansion_pending_or_done(
    cs: Seq<CommitInfo>,
    names: Set<Seq<char>>,
    seen: Seq<String>,
    queue: Seq<usize>,
    h: int,
    skip: int,
) -> bool {
    forall|r: int|
        0 <= r < cs.len() && r != skip && explored_row(cs, names, cs[r].id@) == Some(r) && has_name(
            seen,
            #[trigger] cs[r].id@,
        ) ==> queued_row(queue, r, h) || parents_seen(cs, r, seen)
}

/// What the walk has seen once it has stopped: every tip, and every parent of
/// every expanded row, is seen; so everything reachable is.
proof fn lemma_closed_complete(cs: Seq<CommitInfo>, names: Set<Seq<char>>, v: Seq<String>, id: Seq<char>, k: nat)
    requires
        forall|r: int| 0 <= r < cs.len() && #[trigger] is_tip(cs[r], names) ==> has_name(v, cs[r].id@),
        expansion_pending_or_done(cs, names, v, Seq::<usize>::empty(), 0, -1),
        reached_within(cs, names, id, k),
    ensures
        has_name(v, id),
    decreases k,
{
    if k == 0 {
        let r = choose|r: int| 0 <= r < cs.len() && #[trigger] cs[r].id@ == id && is_tip(cs[r], names);
        assert(is_tip(cs[r], names));
    } else if reached_within(cs, names, id, (k - 1) as nat) {
        lemma_closed_complete(cs, names, v, id, (k - 1) as nat);
    } else {
        let (r, p) = choose|r: int, p: int|
            #![trigger cs[r].parent_ids@[p]]
            0 <= r < cs.len() && explored_row(cs, names, cs[r].id@) == Some(r) && reached_within(
                cs,
                names,
                cs[r].id@,
                (k - 1) as nat,
            ) && 0 <= p < cs[r].parent_ids@.len() && cs[r].parent_ids@[p]@ == id;
        lemma_closed_complete(cs, names, v, cs[r].id@, (k - 1) as nat);
        assert(has_name(v, cs[r].id@));
        assert(!queued_row(Seq::<usize>::empty(), r, 0));
        assert(parents_seen(cs, r, v));
        assert(has_name(v, cs[r].parent_ids@[p]@));
    }
}

/// The ids of all ancestors of the commits that carry a reference named in
/// `branch_names` (the tips themselves included).
///
/// The walk starts from every tip and follows parent ids backwards; the
/// parents of an id are read from the first tip carrying it, or else from the
/// last commit carrying it. A parent id that is not in `commits` is kept but not
/// followed further.
fn ancestor_set(commits: &[CommitInfo], branch_names: &Vec<String>) -> (visible: Vec<String>)
    ensures
        forall|s: Seq<char>| has_name(visible@, s) <==> in_ancestry(commits@, name_set(branch_names@), s),
{
    let ghost cs = commits@;
    let ghost names = name_set(branch_names@);
    let n = commits.len();
    let mut queue: VecDeque<usize> = VecDeque::new();
    let ghost mut q: Seq<usize> = Seq::empty();
    let mut visited: Vec<String> = Vec::new();
    let mut idx: usize = 0;
    while idx < n
        invariant
            idx <= n,
            n == cs.len(),
            cs == commits@,
            names == name_set(branch_names@),
            forall|s: Seq<char>| has_name(visited@, s) <==> tip_id_before(cs, names, s, idx as int),
            forall|s: Seq<char>| has_name(visited@, s) ==> queued_id(cs, q, s, 0),
            queue_ok(cs, names, visited@, q),
            queue@ == q,
        decreases n - idx,
    {
        let commit = &commits[idx];
        if has_ref_named(commit, branch_names) {
            if !contains_name(&visited, &commit.id) {
                proof {
                    assert forall|r: int| 0 <= r < idx implies !(#[trigger] cs[r].id@ == cs[idx as int].id@
                        && is_tip(cs[r], names)) by {
                        if cs[r].id@ == cs[idx as int].id@ && is_tip(cs[r], names) {
                            assert(tip_id_before(cs, names, cs[idx as int].id@, idx as int));
                        }
                    }
                    lemma_first_tip_found(cs, names, cs[idx as int].id@, 0, idx as int);
                }
                let ghost v_old = visited@;
                let ghost q_old = q;
                visited.push(commit.id.clone());
                queue.push_back(idx);
                proof {
                    q = q.push(idx);
                }
                proof {
                    assert forall|s: Seq<char>| has_name(visited@, s) <==> tip_id_before(cs, names, s, idx + 1) by {
                        lemma_has_name_push(v_old, visited@[visited@.len() - 1], s);
                        if tip_id_before(cs, names, s, idx + 1) && s != cs[idx as int].id@ {
                            let r = choose|r: int| 0 <= r < idx + 1 && #[trigger] cs[r].id@ == s && is_tip(cs[r], names);
                            assert(tip_id_before(cs, names, s, idx as int));
                        }
                        if s == cs[idx as int].id@ {
                            assert(cs[idx as int].id@ == s && is_tip(cs[idx as int], names));
                        }
                        if tip_id_before(cs, names, s, idx as int) {
                            let r = choose|r: int| 0 <= r < idx && #[trigger] cs[r].id@ == s && is_tip(cs[r], names);
                            assert(cs[r].id@ == s);
                        }
                    }
                    assert forall|k: int| 0 <= k < q.len() implies has_name(visited@, cs[q[k] as int].id@) by {
                        lemma_has_name_push(v_old, visited@[visited@.len() - 1], cs[q[k] as int].id@);
                    }
                    assert forall|a: int, b: int| 0 <= a < b < q.len() implies q[a] != q[b] by {
                        if b == q.len() - 1 {
                            assert(has_name(v_old, cs[q_old[a] as int].id@));
                        }
                    }
                    assert forall|s: Seq<char>| has_name(visited@, s) implies queued_id(cs, q, s, 0) by {
                        lemma_has_name_push(v_old, visited@[visited@.len() - 1], s);
                        if s == cs[idx as int].id@ {
                            assert(q[q.len() - 1] == idx);
                        } else {
                            let k = choose|k: int| 0 <= k < q_old.len() && cs[#[trigger] q_old[k] as int].id@ == s;
                            assert(q[k] == q_old[k]);
                        }
                    }
                }
            } else {
                proof {
                    assert forall|s: Seq<char>| has_name(visited@, s) <==> tip_id_before(cs, names, s, idx + 1) by {
                        if tip_id_before(cs, names, s, idx + 1) && s != cs[idx as int].id@ {
                            let r = choose|r: int| 0 <= r < idx + 1 && #[trigger] cs[r].id@ == s && is_tip(cs[r], names);
                            assert(tip_id_before(cs, names, s, idx as int));
                        }
                        if tip_id_before(cs, names, s, idx as int) {
                            let r = choose|r: int| 0 <= r < idx && #[trigger] cs[r].id@ == s && is_tip(cs[r], names);
                            assert(cs[r].id@ == s);
                        }
                    }
                }
            }
        } else {
            proof {
                assert forall|s: Seq<char>| has_name(visited@, s) <==> tip_id_before(cs, names, s, idx + 1) by {
                    if tip_id_before(cs, names, s, idx + 1) {
                        let r = choose|r: int| 0 <= r < idx + 1 && #[trigger] cs[r].id@ == s && is_tip(cs[r], names);
                        assert(r != idx);
                        assert(tip_id_before(cs, names, s, idx as int));
                    }
                    if tip_id_before(cs, names, s, idx as int) {
                        let r = choose|r: int| 0 <= r < idx && #[trigger] cs[r].id@ == s && is_tip(cs[r], names);
                        assert(cs[r].id@ == s);
                    }
                }
            }
        }
        idx = idx + 1;
    }
    proof {
        assert forall|s: Seq<char>| has_name(visited@, s) implies in_ancestry(cs, names, s) by {
            assert(reached_within(cs, names, s, 0));
        }
        assert forall|r: int| 0 <= r < n && #[trigger] is_tip(cs[r], names) implies has_name(visited@, cs[r].id@) by {
            assert(cs[r].id@ == cs[r].id@ && is_tip(cs[r], names));
            assert(tip_id_before(cs, names, cs[r].id@, n as int));
        }
        assert forall|r: int|
            0 <= r < n && -1 != r && explored_row(cs, names, cs[r].id@) == Some(r) && has_name(
                visited@,
                #[trigger] cs[r].id@,
            ) implies queued_row(q, r, 0) || parents_seen(cs, r, visited@) by {
            let k = choose|k: int| 0 <= k < q.len() && cs[#[trigger] q[k] as int].id@ == cs[r].id@;
            assert(q[k] == r);
        }
    }
    let mut head: usize = 0;
    while queue.len() > 0
        invariant
            queue@ == q.subrange(head as int, q.len() as int),
            n == cs.len(),
            cs == commits@,
            names == name_set(branch_names@),
            head <= q.len(),
            queue_ok(cs, names, visited@, q),
            forall|s: Seq<char>| has_name(visited@, s) ==> in_ancestry(cs, names, s),
            forall|r: int| 0 <= r < n && #[trigger] is_tip(cs[r], names) ==> has_name(visited@, cs[r].id@),
            expansion_pending_or_done(cs, names, visited@, q, head as int, -1),
        decreases 2 * n - q.len() - head,
    {
        proof {
            lemma_distinct_rows_bounded(q, n as int);
            lemma_explored_row_bounds(cs, names, cs[q[head as int] as int].id@);
        }
        let front = queue.pop_front();
        let r: usize = match front {
            Some(x) => x,
            None => 0,
        };
        assert(r == q[head as int]);
        let ghost rr = r as int;
        let ghost q_start = q.len();
        let ghost h_old = head as int;
        head = head + 1;
        let np = commits[r].parent_ids.len();
        let mut pi: usize = 0;
        proof {
            assert forall|r2: int|
                0 <= r2 < n && r2 != rr && explored_row(cs, names, cs[r2].id@) == Some(r2) && has_name(
                    visited@,
                    #[trigger] cs[r2].id@,
                ) implies queued_row(q, r2, head as int) || parents_seen(cs, r2, visited@) by {
                assert(-1 != r2);
                if queued_row(q, r2, h_old) {
                    let k = choose|k: int| h_old <= k < q.len() && #[trigger] q[k] == r2;
                    assert(k != h_old);
                }
            }
        }
        while pi < np
            invariant
                n == cs.len(),
                cs == commits@,
                names == name_set(branch_names@),
                0 <= rr < n,
                rr == r,
                np == cs[rr].parent_ids@.len(),
                pi <= np,
                head == h_old + 1,
                queue@ == q.subrange(head as int, q.len() as int),
                0 <= h_old < q_start <= q.len(),
                q[h_old] == r,
                explored_row(cs, names, cs[rr].id@) == Some(rr),
                queue_ok(cs, names, visited@, q),
                forall|s: Seq<char>| has_name(visited@, s) ==> in_ancestry(cs, names, s),
                forall|r2: int| 0 <= r2 < n && #[trigger] is_tip(cs[r2], names) ==> has_name(visited@, cs[r2].id@),
                expansion_pending_or_done(cs, names, visited@, q, head as int, rr),
                forall|p: int| 0 <= p < pi ==> has_name(visited@, #[trigger] cs[rr].parent_ids@[p]@),
            decreases np - pi,
        {
            let pid = &commits[r].parent_ids[pi];
            if !contains_name(&visited, pid) {
                let ghost v_old = visited@;
                let ghost q_old = q;
                proof {
                    assert(q[h_old] < cs.len());
                    assert(has_name(v_old, cs[rr].id@));
                    let k0 = choose|k0: nat| reached_within(cs, names, cs[rr].id@, k0);
                    assert(reached_within(cs, names, pid@, k0 + 1)) by {
                        assert(cs[rr].parent_ids@[pi as int]@ == pid@);
                    }
                    assert forall|r2: int| 0 <= r2 < n implies !(#[trigger] cs[r2].id@ == pid@ && is_tip(cs[r2], names)) by {
                        if cs[r2].id@ == pid@ && is_tip(cs[r2], names) {
                            assert(is_tip(cs[r2], names));
                        }
                    }
                    lemma_first_tip_absent(cs, names, pid@, 0);
                    lemma_row_of_id_bounds(cs, pid@);
                }
                visited.push(pid.clone());
                let found = last_row_of(commits, pid);
                match found {
                    Some(pidx) => {
                        queue.push_back(pidx);
                        proof {
                            q = q.push(pidx);
                        }
                    },
                    None => {},
                }
                proof {
                    assert(q[h_old] == q_old[h_old]);
                    let x = visited@[visited@.len() - 1];
                    assert forall|s: Seq<char>| has_name(visited@, s) implies in_ancestry(cs, names, s) by {
                        lemma_has_name_push(v_old, x, s);
                    }
                    assert forall|r2: int| 0 <= r2 < n && #[trigger] is_tip(cs[r2], names) implies has_name(visited@, cs[r2].id@) by {
                        lemma_has_name_push(v_old, x, cs[r2].id@);
                    }
                    assert forall|k: int| 0 <= k < q.len() implies has_name(visited@, cs[#[trigger] q[k] as int].id@) by {
                        if k < q_old.len() {
                            lemma_has_name_push(v_old, x, cs[q_old[k] as int].id@);
                        } else {
                            lemma_has_name_push(v_old, x, pid@);
                        }
                    }
                    assert forall|a: int, b: int| 0 <= a < b < q.len() implies q[a] != q[b] by {
                        if b == q_old.len() {
                            assert(has_name(v_old, cs[q_old[a] as int].id@));
                        }
                    }
                    assert forall|p: int| 0 <= p < pi + 1 implies has_name(visited@, #[trigger] cs[rr].parent_ids@[p]@) by {
                        lemma_has_name_push(v_old, x, cs[rr].parent_ids@[p]@);
                    }
                    assert forall|r2: int|
                        0 <= r2 < n && r2 != rr && explored_row(cs, names, cs[r2].id@) == Some(r2) && has_name(
                            visited@,
                            #[trigger] cs[r2].id@,
                        ) implies queued_row(q, r2, head as int) || parents_seen(cs, r2, visited@) by {
                        lemma_has_name_push(v_old, x, cs[r2].id@);
                        if has_name(v_old, cs[r2].id@) {
                            if queued_row(q_old, r2, head as int) {
                                let k = choose|k: int| head <= k < q_old.len() && #[trigger] q_old[k] == r2;
                                assert(q[k] == r2);
                            } else {
                                assert forall|p: int| 0 <= p < cs[r2].parent_ids@.len() implies has_name(
                                    visited@,
                                    #[trigger] cs[r2].parent_ids@[p]@,
                                ) by {
                                    lemma_has_name_push(v_old, x, cs[r2].parent_ids@[p]@);
                                }
                            }
                        } else {
                            assert(cs[r2].id@ == pid@);
                            assert(row_of_id(cs, pid@) == Some(r2 as usize));
                            assert(q[q.len() - 1] == r2);
                        }
                    }
                }
            }
            pi = pi + 1;
        }
        proof {
            assert(parents_seen(cs, rr, visited@));
            lemma_distinct_rows_bounded(q, n as int);
        }
    }
    proof {
        assert forall|s: Seq<char>| in_ancestry(cs, names, s) implies has_name(visited@, s) by {
            let k = choose|k: nat| reached_within(cs, names, s, k);
            assert forall|r: int|
                0 <= r < cs.len() && r != -1 && explored_row(cs, names, cs[r].id@) == Some(r) && has_name(
                    visited@,
                    #[trigger] cs[r].id@,
                ) implies queued_row(Seq::<usize>::empty(), r, 0) || parents_seen(cs, r, visited@) by {
                assert(!queued_row(q, r, head as int));
            }
            lemma_closed_complete(cs, names, visited@, s, k);
        }
    }
    visited
}


// ---------------------------------------------------------------------------
// Solo and Hide filters
// ---------------------------------------------------------------------------

/// Two commit lists hold the same commits, position by position.
pub open spec fn same_commits(a: Seq<CommitInfo>, b: Seq<CommitInfo>) -> bool {
    &&& a.len() == b.len()
    &&& forall|i: int| 0 <= i < a.len() ==> same_commit(#[trigger] a[i], b[i])
}

/// The commits of `cs`, in order, whose ids are in the ancestry of the tips of `names`.
pub open spec fn ancestry_commits(cs: Seq<CommitInfo>, names: Set<Seq<char>>) -> Seq<CommitInfo> {
    cs.filter(|c: CommitInfo| in_ancestry(cs, names, c.id@))
}

/// What the Solo view shows of `cs`: everything when nothing is soloed, else the
/// ancestry of the soloed branches.
pub open spec fn solo_view(cs: Seq<CommitInfo>, soloed: Seq<String>) -> Seq<CommitInfo> {
    if soloed.len() == 0 {
        cs
    } else {
        ancestry_commits(cs, name_set(soloed))
    }
}

/// A reference to a local or a remote branch.
pub open spec fn is_branch_ref(rt: RefType) -> bool {
    rt is LocalBranch || rt is RemoteBranch
}

/// The branch reference `j` of commit `i` carries the name `s`.
pub open spec fn branch_ref_named(cs: Seq<CommitInfo>, i: int, j: int, s: Seq<char>) -> bool {
    &&& 0 <= i < cs.len()
    &&& 0 <= j < cs[i].refs@.len()
    &&& is_branch_ref(cs[i].refs@[j].ref_type)
    &&& cs[i].refs@[j].name@ == s
}

/// The names of all branch references (local or remote) on the commits of `cs`.
pub open spec fn branch_names_of(cs: Seq<CommitInfo>) -> Set<Seq<char>> {
    Set::new(|s: Seq<char>| exists|i: int, j: int| #[trigger] branch_ref_named(cs, i, j, s))
}

/// What the Hide view shows of `cs`: everything when nothing is hidden, else the
/// ancestry of the branches that are not hidden.
pub open spec fn hide_view(cs: Seq<CommitInfo>, hidden: Seq<String>) -> Seq<CommitInfo> {
    if hidden.len() == 0 {
        cs
    } else {
        ancestry_commits(cs, branch_names_of(cs).difference(name_set(hidden)))
    }
}

/// A copy of `commits`.
fn copy_commits(commits: &[CommitInfo]) -> (r: Vec<CommitInfo>)
    ensures
        same_commits(r@, commits@),
{
    let mut r: Vec<CommitInfo> = Vec::new();
    let mut i: usize = 0;
    while i < commits.len()
        invariant
            i <= commits@.len(),
            r@.len() == i,
            forall|k: int| 0 <= k < i ==> same_commit(#[trigger] r@[k], commits@[k]),
        decreases commits@.len() - i,
    {
        r.push(commits[i].clone());
        i = i + 1;
    }
    r
}

/// The commits of `commits`, in order, whose ids are among `ids`.
fn keep_ids(commits: &[CommitInfo], ids: &Vec<String>) -> (r: Vec<CommitInfo>)
    ensures
        same_commits(r@, commits@.filter(|c: CommitInfo| has_name(ids@, c.id@))),
{
    let ghost keep = |c: CommitInfo| has_name(ids@, c.id@);
    let mut r: Vec<CommitInfo> = Vec::new();
    let mut i: usize = 0;
    while i < commits.len()
        invariant
            i <= commits@.len(),
            keep == (|c: CommitInfo| has_name(ids@, c.id@)),
            same_commits(r@, commits@.take(i as int).filter(keep)),
        decreases commits@.len() - i,
    {
        proof {
            reveal(Seq::filter);
            assert(commits@.take(i + 1).drop_last() =~= commits@.take(i as int));
            assert(commits@.take(i + 1).last() == commits@[i as int]);
        }
        if contains_name(ids, &commits[i].id) {
            r.push(commits[i].clone());
        }
        i = i + 1;
    }
    assert(commits@.take(commits@.len() as int) =~= commits@);
    r
}

/// Solo filter: returns only commits that are ancestors of any solo'd branch.
///
/// A branch's tip commit is the commit whose `refs` contain a `RefLabel` with
/// a matching name. We walk backwards through `parent_ids` to collect all
/// ancestors. Both local and remote branches are supported.
pub fn apply_solo_filter(commits: &[CommitInfo], soloed_branches: &Vec<String>) -> (r: Vec<CommitInfo>)
    ensures
        same_commits(r@, solo_view(commits@, soloed_branches@)),
{
    if soloed_branches.len() == 0 {
        return copy_commits(commits);
    }
    let visible = ancestor_set(commits, soloed_branches);
    let r = keep_ids(commits, &visible);
    assert((|c: CommitInfo| has_name(visible@, c.id@)) =~= (|c: CommitInfo|
        in_ancestry(commits@, name_set(soloed_branches@), c.id@)));
    r
}


/// A branch reference before commit `i`, or on commit `i` before reference `j`, carries `s`.
pub open spec fn branch_named_before(cs: Seq<CommitInfo>, i: int, j: int, s: Seq<char>) -> bool {
    exists|a: int, b: int| (a < i || (a == i && b < j)) && #[trigger] branch_ref_named(cs, a, b, s)
}

/// Whether the reference type is a local or a remote branch.
fn is_branch_type(rt: &RefType) -> (b: bool)
    ensures
        b == is_branch_ref(*rt),
        b == (rt is LocalBranch || rt is RemoteBranch),
{
    match rt {
        RefType::LocalBranch => true,
        RefType::RemoteBranch { .. } => true,
        RefType::Tag => false,
    }
}

/// The names of the branch references on `commits` that are not in `hidden`,
/// each once.
fn shown_branch_names(commits: &[CommitInfo], hidden: &Vec<String>) -> (r: Vec<String>)
    ensures
        name_set(r@) == branch_names_of(commits@).difference(name_set(hidden@)),
{
    let ghost cs = commits@;
    let mut r: Vec<String> = Vec::new();
    let mut i: usize = 0;
    while i < commits.len()
        invariant
            i <= cs.len(),
            cs == commits@,
            forall|s: Seq<char>| has_name(r@, s) <==> branch_named_before(cs, i as int, 0, s) && !has_name(hidden@, s),
        decreases cs.len() - i,
    {
        let refs = &commits[i].refs;
        let mut j: usize = 0;
        while j < refs.len()
            invariant
                i < cs.len(),
                j <= refs@.len(),
                cs == commits@,
                refs@ == cs[i as int].refs@,
                forall|s: Seq<char>| has_name(r@, s) <==> branch_named_before(cs, i as int, j as int, s) && !has_name(hidden@, s),
            decreases refs@.len() - j,
        {
            let rl = &refs[j];
            let ghost r_old = r@;
            if is_branch_type(&rl.ref_type) && !contains_name(hidden, &rl.name) && !contains_name(&r, &rl.name) {
                r.push(rl.name.clone());
            }
            proof {
                assert(branch_ref_named(cs, i as int, j as int, rl.name@) == is_branch_ref(rl.ref_type));
                assert forall|s: Seq<char>| has_name(r@, s) <==> branch_named_before(cs, i as int, j + 1, s) && !has_name(hidden@, s) by {
                    if r@.len() > r_old.len() {
                        lemma_has_name_push(r_old, r@[r@.len() - 1], s);
                        assert(r@ == r_old.push(r@[r@.len() - 1]));
                    } else {
                        assert(r@ == r_old);
                    }
                    if branch_named_before(cs, i as int, j + 1, s) {
                        let (a, b) = choose|a: int, b: int| (a < i || (a == i && b < j + 1)) && #[trigger] branch_ref_named(cs, a, b, s);
                        if !(a < i || (a == i && b < j)) {
                            assert(a == i && b == j);
                        }
                    }
                    if branch_named_before(cs, i as int, j as int, s) {
                        let (a, b) = choose|a: int, b: int| (a < i || (a == i && b < j)) && #[trigger] branch_ref_named(cs, a, b, s);
                        assert(branch_ref_named(cs, a, b, s));
                    }
                    if s == rl.name@ && is_branch_ref(rl.ref_type) {
                        assert(branch_ref_named(cs, i as int, j as int, s));
                    }
                }
            }
            j = j + 1;
        }
        proof {
            assert forall|s: Seq<char>| branch_named_before(cs, i as int, j as int, s) <==> branch_named_before(cs, i + 1, 0, s) by {
                if branch_named_before(cs, i + 1, 0, s) {
                    let (a, b) = choose|a: int, b: int| (a < i + 1 || (a == i + 1 && b < 0)) && #[trigger] branch_ref_named(cs, a, b, s);
                    assert(a < i || (a == i && b < j));
                }
                if branch_named_before(cs, i as int, j as int, s) {
                    let (a, b) = choose|a: int, b: int| (a < i || (a == i && b < j)) && #[trigger] branch_ref_named(cs, a, b, s);
                    assert(branch_ref_named(cs, a, b, s));
                }
            }
        }
        i = i + 1;
    }
    proof {
        assert forall|s: Seq<char>| name_set(r@).contains(s) <==> branch_names_of(cs).difference(name_set(hidden@)).contains(s) by {
            if branch_names_of(cs).contains(s) {
                let (a, b) = choose|a: int, b: int| #[trigger] branch_ref_named(cs, a, b, s);
                assert(a < cs.len());
                assert(branch_named_before(cs, i as int, 0, s));
            }
            if branch_named_before(cs, i as int, 0, s) {
                let (a, b) = choose|a: int, b: int| (a < i || (a == i && b < 0)) && #[trigger] branch_ref_named(cs, a, b, s);
                assert(branch_names_of(cs).contains(s));
            }
        }
        assert(name_set(r@) =~= branch_names_of(cs).difference(name_set(hidden@)));
    }
    r
}

/// Hide filter: returns commits excluding those that are "exclusive" to hidden
/// branches.
///
/// A commit is exclusive to hidden branches if it is reachable from ONLY hidden
/// branches (i.e. not reachable from any non-hidden branch). Both local and
/// remote branches are supported.
pub fn apply_hide_filter(commits: &[CommitInfo], hidden_branches: &Vec<String>) -> (r: Vec<CommitInfo>)
    ensures
        same_commits(r@, hide_view(commits@, hidden_branches@)),
{
    if hidden_branches.len() == 0 {
        return copy_commits(commits);
    }
    let non_hidden = shown_branch_names(commits, hidden_branches);
    let visible = ancestor_set(commits, &non_hidden);
    let r = keep_ids(commits, &visible);
    assert((|c: CommitInfo| has_name(visible@, c.id@)) =~= (|c: CommitInfo|
        in_ancestry(commits@, branch_names_of(commits@).difference(name_set(hidden_branches@)), c.id@)));
    r
}


// ---------------------------------------------------------------------------
// Pin to Left
// ---------------------------------------------------------------------------

/// The first row from `k` on whose commit carries a branch reference named `name`.
pub open spec fn branch_tip_from(cs: Seq<CommitInfo>, name: Seq<char>, k: int) -> Option<int>
    decreases cs.len() - k,
{
    if 0 <= k < cs.len() {
        if exists|j: int| #[trigger] branch_ref_named(cs, k, j, name) {
            Some(k)
        } else {
            branch_tip_from(cs, name, k + 1)
        }
    } else {
        None
    }
}

/// The column of the last of the first `k` nodes whose commit is `id`.
pub open spec fn node_column_upto(nodes: Seq<DagNode>, id: Seq<char>, k: int) -> Option<usize>
    decreases k,
{
    if k <= 0 {
        None
    } else if nodes[k - 1].commit_id@ == id {
        Some(nodes[k - 1].column)
    } else {
        node_column_upto(nodes, id, k - 1)
    }
}

/// The column in `layout` of the tip of the branch `name`, if it has a tip
/// with a node.
pub open spec fn pin_source_column(layout: DagLayout, cs: Seq<CommitInfo>, name: Seq<char>) -> Option<usize> {
    match branch_tip_from(cs, name, 0) {
        Some(row) => node_column_upto(layout.nodes@, cs[row].id@, layout.nodes@.len() as int),
        None => None,
    }
}

/// The first position from `k` on where `perm` holds `c`.
pub open spec fn first_index_of(perm: Seq<usize>, c: usize, k: int) -> Option<int>
    decreases perm.len() - k,
{
    if 0 <= k < perm.len() {
        if perm[k] == c {
            Some(k)
        } else {
            first_index_of(perm, c, k + 1)
        }
    } else {
        None
    }
}

/// Bring column `c` to position `target` of `perm`, swapping it with what stood there.
pub open spec fn pin_step(perm: Seq<usize>, target: int, c: usize) -> Seq<usize> {
    match first_index_of(perm, c, 0) {
        Some(pos) => perm.update(target, c).update(pos, perm[target]),
        None => perm,
    }
}

/// The column order after the first `k` pinned names have been looked at, and
/// the next target position: a name takes the next target only where its branch
/// has a tip with a node, so names absent from the graph use up no column.
pub open spec fn pin_state(layout: DagLayout, pinned: Seq<String>, cs: Seq<CommitInfo>, k: int) -> (Seq<usize>, int)
    decreases k,
{
    if k <= 0 {
        (Seq::new(layout.total_columns as nat, |i: int| i as usize), 0)
    } else {
        let prev = pin_state(layout, pinned, cs, k - 1);
        let t = prev.1;
        if t >= layout.total_columns {
            prev
        } else {
            match pin_source_column(layout, cs, pinned[k - 1]@) {
                Some(c) => (pin_step(prev.0, t, c), t + 1),
                None => prev,
            }
        }
    }
}

/// The column order after the first `k` pinned names have been looked at.
pub open spec fn pin_perm(layout: DagLayout, pinned: Seq<String>, cs: Seq<CommitInfo>, k: int) -> Seq<usize> {
    pin_state(layout, pinned, cs, k).0
}

/// How many of the first `k` pinned names have a tip with a node in the layout.
pub open spec fn present_before(layout: DagLayout, pinned: Seq<String>, cs: Seq<CommitInfo>, k: int) -> int
    decreases k,
{
    if k <= 0 {
        0
    } else {
        present_before(layout, pinned, cs, k - 1) + if pin_source_column(layout, cs, pinned[k - 1]@) is Some {
            1int
        } else {
            0int
        }
    }
}

/// Where column `c` goes once the pinned branches are placed: to its position
/// in the final column order, or nowhere if it is not in that order.
pub open spec fn pinned_column(layout: DagLayout, pinned: Seq<String>, cs: Seq<CommitInfo>, c: usize) -> usize {
    if pinned.len() == 0 {
        c
    } else {
        match first_index_of(pin_perm(layout, pinned, cs, pinned.len() as int), c, 0) {
            Some(i) => i as usize,
            None => c,
        }
    }
}

/// `new` is `old` with every column moved as `pinned_column` says.
pub open spec fn is_pinned_layout(new: DagLayout, old: DagLayout, pinned: Seq<String>, cs: Seq<CommitInfo>) -> bool {
    &&& new.total_columns == old.total_columns
    &&& new.total_rows == old.total_rows
    &&& new.nodes@.len() == old.nodes@.len()
    &&& forall|i: int|
        0 <= i < old.nodes@.len() ==> {
            let a = #[trigger] new.nodes@[i];
            let b = old.nodes@[i];
            &&& a.commit_id@ == b.commit_id@
            &&& a.row == b.row
            &&& a.color_index == b.color_index
            &&& a.column == pinned_column(old, pinned, cs, b.column)
            &&& a.parent_edges@.len() == b.parent_edges@.len()
            &&& forall|e: int|
                0 <= e < b.parent_edges@.len() ==> {
                    let x = #[trigger] a.parent_edges@[e];
                    let y = b.parent_edges@[e];
                    &&& x.from_column == pinned_column(old, pinned, cs, y.from_column)
                    &&& x.to_column == pinned_column(old, pinned, cs, y.to_column)
                    &&& x.to_row == y.to_row
                    &&& x.color_index == y.color_index
                }
        }
}

proof fn lemma_first_index_of_bounds(perm: Seq<usize>, c: usize, k: int)
    requires
        0 <= k,
    ensures
        first_index_of(perm, c, k) matches Some(i) ==> k <= i < perm.len() && perm[i] == c && forall|m: int|
            k <= m < i ==> perm[m] != c,
        first_index_of(perm, c, k) is None ==> forall|m: int| k <= m < perm.len() ==> perm[m] != c,
    decreases perm.len() - k,
{
    if 0 <= k < perm.len() && perm[k] != c {
        lemma_first_index_of_bounds(perm, c, k + 1);
    }
}

/// The first row of `commits` that carries a branch reference named `name`.
fn find_branch_tip(commits: &[CommitInfo], name: &String) -> (r: Option<usize>)
    ensures
        r matches Some(x) ==> branch_tip_from(commits@, name@, 0) == Some(x as int),
        r is None ==> branch_tip_from(commits@, name@, 0) is None,
{
    let ghost cs = commits@;
    let mut i: usize = commits.len();
    let mut found: Option<usize> = None;
    while i > 0
        invariant
            i <= cs.len(),
            cs == commits@,
            found matches Some(x) ==> branch_tip_from(cs, name@, i as int) == Some(x as int),
            found is None ==> branch_tip_from(cs, name@, i as int) is None,
        decreases i,
    {
        i = i - 1;
        let refs = &commits[i].refs;
        let mut j: usize = 0;
        let mut hit = false;
        while j < refs.len()
            invariant
                i < cs.len(),
                j <= refs@.len(),
                cs == commits@,
                refs@ == cs[i as int].refs@,
                hit == exists|m: int| 0 <= m < j && #[trigger] branch_ref_named(cs, i as int, m, name@),
            decreases refs@.len() - j,
        {
            if is_branch_type(&refs[j].ref_type) && refs[j].name == *name {
                assert(branch_ref_named(cs, i as int, j as int, name@));
                hit = true;
            }
            proof {
                if !hit {
                    assert forall|m: int| 0 <= m < j + 1 implies !#[trigger] branch_ref_named(cs, i as int, m, name@) by {
                        if m == j {
                        } else {
                        }
                    }
                }
            }
            j = j + 1;
        }
        proof {
            if !hit {
                assert forall|m: int| !#[trigger] branch_ref_named(cs, i as int, m, name@) by {
                    if 0 <= m < refs@.len() {
                    }
                }
            }
        }
        if hit {
            found = Some(i);
        }
    }
    found
}


/// The column of the last node of `nodes` whose commit is `id`.
fn last_node_column(nodes: &Vec<DagNode>, id: &String) -> (r: Option<usize>)
    ensures
        r == node_column_upto(nodes@, id@, nodes@.len() as int),
{
    let mut r: Option<usize> = None;
    let mut k: usize = 0;
    while k < nodes.len()
        invariant
            k <= nodes@.len(),
            r == node_column_upto(nodes@, id@, k as int),
        decreases nodes@.len() - k,
    {
        if nodes[k].commit_id == *id {
            r = Some(nodes[k].column);
        }
        k = k + 1;
    }
    r
}

/// The first position of `c` in `perm`.
fn position_of(perm: &Vec<usize>, c: usize) -> (r: Option<usize>)
    ensures
        r matches Some(x) ==> first_index_of(perm@, c, 0) == Some(x as int),
        r is None ==> first_index_of(perm@, c, 0) is None,
{
    let mut k: usize = perm.len();
    let mut r: Option<usize> = None;
    while k > 0
        invariant
            k <= perm@.len(),
            r matches Some(x) ==> first_index_of(perm@, c, k as int) == Some(x as int),
            r is None ==> first_index_of(perm@, c, k as int) is None,
        decreases k,
    {
        k = k - 1;
        if perm[k] == c {
            r = Some(k);
        }
    }
    r
}

/// Where column `c` goes under the column order `perm`.
fn moved_column(perm: &Vec<usize>, c: usize) -> (r: usize)
    ensures
        r == (match first_index_of(perm@, c, 0) {
            Some(i) => i as usize,
            None => c,
        }),
{
    match position_of(perm, c) {
        Some(i) => i,
        None => c,
    }
}

/// Pin to Left: reassign columns so that pinned branches occupy the leftmost
/// columns in the order they appear in `pinned_branches`.
///
/// For each pinned branch we find its tip commit, determine its current column,
/// and swap that column to the target left position. All node columns and edge
/// from_column / to_column are updated accordingly.
pub fn apply_pin_to_left(layout: &mut DagLayout, pinned_branches: &[String], commits: &[CommitInfo])
    ensures
        is_pinned_layout(*final(layout), *old(layout), pinned_branches@, commits@),
{
    let ghost old_layout = *layout;
    let ghost pinned = pinned_branches@;
    let ghost cs = commits@;
    if pinned_branches.len() == 0 {
        return;
    }
    let max_col = layout.total_columns;
    let mut col_perm: Vec<usize> = Vec::new();
    let mut c: usize = 0;
    while c < max_col
        invariant
            c <= max_col,
            col_perm@ == Seq::new(c as nat, |i: int| i as usize),
        decreases max_col - c,
    {
        col_perm.push(c);
        c = c + 1;
    }
    let mut k: usize = 0;
    let mut t: usize = 0;
    while k < pinned_branches.len() && t < max_col
        invariant
            k <= pinned.len(),
            pinned == pinned_branches@,
            cs == commits@,
            *layout == old_layout,
            max_col == old_layout.total_columns,
            col_perm@ == pin_perm(old_layout, pinned, cs, k as int),
            t as int == pin_state(old_layout, pinned, cs, k as int).1,
            col_perm@.len() == max_col,
        decreases pinned.len() - k,
    {
        let tip = find_branch_tip(commits, &pinned_branches[k]);
        match tip {
            Some(row) => {
                proof {
                    lemma_branch_tip_bounds(cs, pinned[k as int]@, 0);
                }
                let cur = last_node_column(&layout.nodes, &commits[row].id);
                match cur {
                    Some(current_col) => {
                        match position_of(&col_perm, current_col) {
                            Some(pos_cur) => {
                                proof {
                                    lemma_first_index_of_bounds(col_perm@, current_col, 0);
                                }
                                let old_val = col_perm[t];
                                col_perm.set(t, current_col);
                                col_perm.set(pos_cur, old_val);
                            },
                            None => {},
                        }
                        t = t + 1;
                    },
                    None => {},
                }
            },
            None => {},
        }
        k = k + 1;
    }
    assert(col_perm@ == pin_perm(old_layout, pinned, cs, pinned.len() as int)) by {
        if k < pinned.len() {
            lemma_pin_perm_stops(old_layout, pinned, cs, k as int, pinned.len() as int);
        }
    }
    let mut new_nodes: Vec<DagNode> = Vec::new();
    let mut i: usize = 0;
    while i < layout.nodes.len()
        invariant
            i <= old_layout.nodes@.len(),
            *layout == old_layout,
            pinned == pinned_branches@,
            cs == commits@,
            pinned.len() > 0,
            col_perm@ == pin_perm(old_layout, pinned, cs, pinned.len() as int),
            new_nodes@.len() == i,
            forall|m: int|
                0 <= m < i ==> {
                    let a = #[trigger] new_nodes@[m];
                    let b = old_layout.nodes@[m];
                    &&& a.commit_id@ == b.commit_id@
                    &&& a.row == b.row
                    &&& a.color_index == b.color_index
                    &&& a.column == pinned_column(old_layout, pinned, cs, b.column)
                    &&& a.parent_edges@.len() == b.parent_edges@.len()
                    &&& forall|e: int|
                        0 <= e < b.parent_edges@.len() ==> {
                            let x = #[trigger] a.parent_edges@[e];
                            let y = b.parent_edges@[e];
                            &&& x.from_column == pinned_column(old_layout, pinned, cs, y.from_column)
                            &&& x.to_column == pinned_column(old_layout, pinned, cs, y.to_column)
                            &&& x.to_row == y.to_row
                            &&& x.color_index == y.color_index
                        }
                },
        decreases old_layout.nodes@.len() - i,
    {
        let node = &layout.nodes[i];
        let mut edges: Vec<DagEdge> = Vec::new();
        let mut e: usize = 0;
        while e < node.parent_edges.len()
            invariant
                e <= node.parent_edges@.len(),
                pinned.len() > 0,
                col_perm@ == pin_perm(old_layout, pinned, cs, pinned.len() as int),
                edges@.len() == e,
                forall|m: int|
                    0 <= m < e ==> {
                        let x = #[trigger] edges@[m];
                        let y = node.parent_edges@[m];
                        &&& x.from_column == pinned_column(old_layout, pinned, cs, y.from_column)
                        &&& x.to_column == pinned_column(old_layout, pinned, cs, y.to_column)
                        &&& x.to_row == y.to_row
                        &&& x.color_index == y.color_index
                    },
            decreases node.parent_edges@.len() - e,
        {
            let edge = node.parent_edges[e];
            edges.push(
                DagEdge {
                    from_column: moved_column(&col_perm, edge.from_column),
                    to_column: moved_column(&col_perm, edge.to_column),
                    to_row: edge.to_row,
                    color_index: edge.color_index,
                },
            );
            e = e + 1;
        }
        new_nodes.push(
            DagNode {
                commit_id: node.commit_id.clone(),
                column: moved_column(&col_perm, node.column),
                row: node.row,
                color_index: node.color_index,
                parent_edges: edges,
            },
        );
        i = i + 1;
    }
    layout.nodes = new_nodes;
}

proof fn lemma_branch_tip_bounds(cs: Seq<CommitInfo>, name: Seq<char>, k: int)
    requires
        0 <= k,
    ensures
        branch_tip_from(cs, name, k) matches Some(x) ==> k <= x < cs.len(),
    decreases cs.len() - k,
{
    if 0 <= k < cs.len() && !(exists|j: int| #[trigger] branch_ref_named(cs, k, j, name)) {
        lemma_branch_tip_bounds(cs, name, k + 1);
    }
}

/// Once the target position reaches the number of columns, no later name changes the order.
proof fn lemma_pin_perm_stops(layout: DagLayout, pinned: Seq<String>, cs: Seq<CommitInfo>, t: int, k: int)
    requires
        0 <= t <= k,
        pin_state(layout, pinned, cs, t).1 >= layout.total_columns,
    ensures
        pin_state(layout, pinned, cs, k) == pin_state(layout, pinned, cs, t),
    decreases k - t,
{
    if k > t {
        lemma_pin_perm_stops(layout, pinned, cs, t, k - 1);
    }
}


/// `p` is an ordering of the columns `0..m`: each column exactly once.
pub open spec fn is_column_order(p: Seq<usize>, m: int) -> bool {
    &&& p.len() == m
    &&& forall|i: int| 0 <= i < m ==> #[trigger] p[i] < m
    &&& forall|i: int, j: int| 0 <= i < j < m ==> p[i] != p[j]
    &&& forall|v: usize| v < m ==> #[trigger] column_present(p, v)
}

/// Column `v` stands somewhere in `p`.
pub open spec fn column_present(p: Seq<usize>, v: usize) -> bool {
    exists|i: int| 0 <= i < p.len() && #[trigger] p[i] == v
}

proof fn lemma_pin_step_keeps_order(p: Seq<usize>, m: int, target: int, c: usize)
    requires
        is_column_order(p, m),
        0 <= target < m,
    ensures
        is_column_order(pin_step(p, target, c), m),
{
    lemma_first_index_of_bounds(p, c, 0);
    match first_index_of(p, c, 0) {
        Some(pos) => {
            let q = p.update(target, c).update(pos, p[target]);
            assert(q == pin_step(p, target, c));
            assert forall|i: int| 0 <= i < m implies #[trigger] q[i] == (if i == pos {
                p[target]
            } else if i == target {
                p[pos]
            } else {
                p[i]
            }) by {}
            assert forall|i: int, j: int| 0 <= i < j < m implies q[i] != q[j] by {
                assert(q[i] == (if i == pos { p[target] } else if i == target { p[pos] } else { p[i] }));
                assert(q[j] == (if j == pos { p[target] } else if j == target { p[pos] } else { p[j] }));
            }
            assert forall|v: usize| v < m implies #[trigger] column_present(q, v) by {
                assert(column_present(p, v));
                let i = choose|i: int| 0 <= i < m && #[trigger] p[i] == v;
                if i == pos {
                    assert(q[target] == v);
                } else if i == target {
                    assert(q[pos] == v);
                } else {
                    assert(q[i] == v);
                }
            }
        },
        None => {},
    }
}

/// Each step keeps the column order a permutation, and the target stays within the columns.
proof fn lemma_pin_state_order(layout: DagLayout, pinned: Seq<String>, cs: Seq<CommitInfo>, k: int)
    requires
        0 <= k,
    ensures
        is_column_order(pin_perm(layout, pinned, cs, k), layout.total_columns as int),
        0 <= pin_state(layout, pinned, cs, k).1 <= layout.total_columns,
    decreases k,
{
    let m = layout.total_columns as int;
    if k == 0 {
        let id = Seq::new(layout.total_columns as nat, |i: int| i as usize);
        assert(pin_perm(layout, pinned, cs, 0) == id);
        assert forall|v: usize| v < m implies #[trigger] column_present(id, v) by {
            assert(id[v as int] == v);
        }
    } else {
        lemma_pin_state_order(layout, pinned, cs, k - 1);
        let prev = pin_state(layout, pinned, cs, k - 1);
        if prev.1 < m {
            match pin_source_column(layout, cs, pinned[k - 1]@) {
                Some(c) => lemma_pin_step_keeps_order(prev.0, m, prev.1, c),
                None => {},
            }
        }
    }
}

proof fn lemma_present_before_mono(layout: DagLayout, pinned: Seq<String>, cs: Seq<CommitInfo>, u: int, k: int)
    requires
        0 <= u <= k,
    ensures
        0 <= present_before(layout, pinned, cs, u) <= present_before(layout, pinned, cs, k),
    decreases k,
{
    if u < k {
        lemma_present_before_mono(layout, pinned, cs, u, k - 1);
    } else if k > 0 {
        lemma_present_before_mono(layout, pinned, cs, k - 1, k - 1);
    }
}

/// After the first `k` names, the `j`-th name present in the graph has its
/// column at position `j`, and no position placed so far holds the column of a
/// later name.
proof fn lemma_pin_perm_places(layout: DagLayout, pinned: Seq<String>, cs: Seq<CommitInfo>, k: int)
    requires
        0 <= k <= pinned.len(),
        forall|t: int|
            0 <= t < pinned.len() ==> ((#[trigger] pin_source_column(layout, cs, pinned[t]@)) matches Some(c)
                ==> c < layout.total_columns),
        forall|a: int, b: int|
            0 <= a < b < pinned.len() && pin_source_column(layout, cs, pinned[a]@) is Some ==> pin_source_column(
                layout,
                cs,
                pinned[a]@,
            ) != pin_source_column(layout, cs, pinned[b]@),
    ensures
        pin_state(layout, pinned, cs, k).1 == present_before(layout, pinned, cs, k),
        forall|u: int|
            0 <= u < k && pin_source_column(layout, cs, pinned[u]@) is Some ==> Some(
                pin_perm(layout, pinned, cs, k)[present_before(layout, pinned, cs, u)],
            ) == #[trigger] pin_source_column(layout, cs, pinned[u]@),
        forall|j: int, w: int|
            0 <= j < present_before(layout, pinned, cs, k) && k <= w < pinned.len() ==> Some(
                #[trigger] pin_perm(layout, pinned, cs, k)[j],
            ) != #[trigger] pin_source_column(layout, cs, pinned[w]@),
    decreases k,
{
    let m = layout.total_columns as int;
    lemma_pin_state_order(layout, pinned, cs, k);
    if k > 0 {
        lemma_pin_perm_places(layout, pinned, cs, k - 1);
        lemma_pin_state_order(layout, pinned, cs, k - 1);
        let prev = pin_perm(layout, pinned, cs, k - 1);
        let t = pin_state(layout, pinned, cs, k - 1).1;
        let src = pin_source_column(layout, cs, pinned[k - 1]@);
        match src {
            Some(c) => {
                assert(column_present(prev, c));
                let i0 = choose|i: int| 0 <= i < prev.len() && #[trigger] prev[i] == c;
                if i0 < t {
                    assert(Some(prev[i0]) != pin_source_column(layout, cs, pinned[k - 1]@));
                }
                assert(t < m);
                lemma_first_index_of_bounds(prev, c, 0);
                let pos = first_index_of(prev, c, 0)->0;
                assert forall|j: int| 0 <= j < t implies prev[j] != c by {
                    assert(Some(prev[j]) != pin_source_column(layout, cs, pinned[k - 1]@));
                }
                assert(pos >= t);
                let q = pin_step(prev, t, c);
                assert(q == pin_perm(layout, pinned, cs, k));
                assert(q[t] == c);
                assert forall|u: int|
                    0 <= u < k && pin_source_column(layout, cs, pinned[u]@) is Some implies Some(
                        q[present_before(layout, pinned, cs, u)],
                    ) == #[trigger] pin_source_column(layout, cs, pinned[u]@) by {
                    let j = present_before(layout, pinned, cs, u);
                    lemma_present_before_mono(layout, pinned, cs, u, u);
                    if u < k - 1 {
                        lemma_present_before_mono(layout, pinned, cs, u + 1, k - 1);
                        assert(present_before(layout, pinned, cs, u + 1) == j + 1);
                        assert(j < t);
                        assert(q[j] == prev[j]);
                    } else {
                        assert(j == t);
                    }
                }
                assert forall|j: int, w: int|
                    0 <= j < present_before(layout, pinned, cs, k) && k <= w < pinned.len() implies Some(
                        #[trigger] q[j],
                    ) != #[trigger] pin_source_column(layout, cs, pinned[w]@) by {
                    if j < t {
                        assert(Some(prev[j]) != pin_source_column(layout, cs, pinned[w]@));
                    }
                }
            },
            None => {},
        }
    }
}

/// Pinning places each pinned branch that has a tip in the graph at the column
/// of its place among those branches: the first such branch in column 0, the
/// next in column 1, and so on; names with no tip in the graph take no column.
/// This holds where the tips lie in the layout's columns and no two pinned
/// branches start out in the same column.
pub proof fn lemma_pinned_tips_lead(layout: DagLayout, pinned: Seq<String>, cs: Seq<CommitInfo>)
    requires
        forall|t: int|
            0 <= t < pinned.len() ==> ((#[trigger] pin_source_column(layout, cs, pinned[t]@)) matches Some(c)
                ==> c < layout.total_columns),
        forall|a: int, b: int|
            0 <= a < b < pinned.len() && pin_source_column(layout, cs, pinned[a]@) is Some ==> pin_source_column(
                layout,
                cs,
                pinned[a]@,
            ) != pin_source_column(layout, cs, pinned[b]@),
    ensures
        forall|t: int|
            0 <= t < pinned.len() && pin_source_column(layout, cs, pinned[t]@) is Some ==> pinned_column(
                layout,
                pinned,
                cs,
                (#[trigger] pin_source_column(layout, cs, pinned[t]@))->0,
            ) == present_before(layout, pinned, cs, t),
{
    let n = pinned.len() as int;
    let m = layout.total_columns as int;
    lemma_pin_perm_places(layout, pinned, cs, n);
    lemma_pin_state_order(layout, pinned, cs, n);
    let p = pin_perm(layout, pinned, cs, n);
    assert forall|t: int| 0 <= t < n && pin_source_column(layout, cs, pinned[t]@) is Some implies pinned_column(
        layout,
        pinned,
        cs,
        (#[trigger] pin_source_column(layout, cs, pinned[t]@))->0,
    ) == present_before(layout, pinned, cs, t) by {
        let c = pin_source_column(layout, cs, pinned[t]@)->0;
        let j = present_before(layout, pinned, cs, t);
        lemma_present_before_mono(layout, pinned, cs, t + 1, n);
        lemma_present_before_mono(layout, pinned, cs, t, t);
        assert(present_before(layout, pinned, cs, t + 1) == j + 1);
        assert(j < m);
        assert(Some(p[j]) == pin_source_column(layout, cs, pinned[t]@));
        lemma_first_index_of_bounds(p, c, 0);
        let i = first_index_of(p, c, 0)->0;
        if i != j {
            if i < j {
                assert(p[i] != p[j]);
            }
        }
    }
}

/// Pinning moves columns by a permutation: every column of the layout goes to
/// a column of the layout, and no two columns go to the same one.
pub proof fn lemma_pin_columns_bijective(layout: DagLayout, pinned: Seq<String>, cs: Seq<CommitInfo>)
    ensures
        forall|c: usize| c < layout.total_columns ==> #[trigger] pinned_column(layout, pinned, cs, c) < layout.total_columns,
        forall|c1: usize, c2: usize|
            c1 < layout.total_columns && c2 < layout.total_columns && c1 != c2 ==> #[trigger] pinned_column(
                layout,
                pinned,
                cs,
                c1,
            ) != #[trigger] pinned_column(layout, pinned, cs, c2),
{
    let n = pinned.len() as int;
    lemma_pin_state_order(layout, pinned, cs, n);
    let p = pin_perm(layout, pinned, cs, n);
    if n > 0 {
        assert forall|c1: usize, c2: usize|
            c1 < layout.total_columns && c2 < layout.total_columns && c1 != c2 implies #[trigger] pinned_column(
                layout,
                pinned,
                cs,
                c1,
            ) != #[trigger] pinned_column(layout, pinned, cs, c2) by {
            assert(column_present(p, c1));
            assert(column_present(p, c2));
            lemma_first_index_of_bounds(p, c1, 0);
            lemma_first_index_of_bounds(p, c2, 0);
            let i1 = first_index_of(p, c1, 0)->0;
            let i2 = first_index_of(p, c2, 0)->0;
            assert(p[i1] == c1);
            assert(p[i2] == c2);
            assert(pinned_column(layout, pinned, cs, c1) == i1 as usize);
            assert(pinned_column(layout, pinned, cs, c2) == i2 as usize);
        }
        assert forall|c: usize| c < layout.total_columns implies #[trigger] pinned_column(layout, pinned, cs, c) < layout.total_columns by {
            assert(column_present(p, c));
            lemma_first_index_of_bounds(p, c, 0);
        }
    }
}


/// `ids` holds the id of every tip of `names`, and with the id of each row
/// that the walk explores, the ids of that row's parents.
pub open spec fn closed_under_parents(cs: Seq<CommitInfo>, names: Set<Seq<char>>, ids: Set<Seq<char>>) -> bool {
    &&& forall|r: int| 0 <= r < cs.len() && is_tip(cs[r], names) ==> ids.contains(#[trigger] cs[r].id@)
    &&& forall|r: int, p: int|
        0 <= r < cs.len() && ids.contains(cs[r].id@) && explored_row(cs, names, cs[r].id@) == Some(r) && 0 <= p
            < cs[r].parent_ids@.len() ==> ids.contains(#[trigger] cs[r].parent_ids@[p]@)
}

/// The ids in the ancestry of the tips of `names`.
pub open spec fn ancestry_ids(cs: Seq<CommitInfo>, names: Set<Seq<char>>) -> Set<Seq<char>> {
    Set::new(|id: Seq<char>| in_ancestry(cs, names, id))
}

proof fn lemma_reached_in_closed(cs: Seq<CommitInfo>, names: Set<Seq<char>>, ids: Set<Seq<char>>, id: Seq<char>, k: nat)
    requires
        closed_under_parents(cs, names, ids),
        reached_within(cs, names, id, k),
    ensures
        ids.contains(id),
    decreases k,
{
    if k == 0 {
        let r = choose|r: int| 0 <= r < cs.len() && #[trigger] cs[r].id@ == id && is_tip(cs[r], names);
        assert(ids.contains(cs[r].id@));
    } else if reached_within(cs, names, id, (k - 1) as nat) {
        lemma_reached_in_closed(cs, names, ids, id, (k - 1) as nat);
    } else {
        let (r, p) = choose|r: int, p: int|
            #![trigger cs[r].parent_ids@[p]]
            0 <= r < cs.len() && explored_row(cs, names, cs[r].id@) == Some(r) && reached_within(
                cs,
                names,
                cs[r].id@,
                (k - 1) as nat,
            ) && 0 <= p < cs[r].parent_ids@.len() && cs[r].parent_ids@[p]@ == id;
        lemma_reached_in_closed(cs, names, ids, cs[r].id@, (k - 1) as nat);
        assert(ids.contains(cs[r].parent_ids@[p]@));
    }
}

/// The ancestry of the tips of `names` is the least set of ids that holds
/// every tip and the parents of every row it explores: it is such a set, and
/// every such set holds it. The Solo view keeps the commits of this set for
/// the soloed names, the Hide view for the names that are not hidden.
pub proof fn lemma_ancestry_is_least_closure(cs: Seq<CommitInfo>, names: Set<Seq<char>>, ids: Set<Seq<char>>)
    ensures
        closed_under_parents(cs, names, ancestry_ids(cs, names)),
        closed_under_parents(cs, names, ids) ==> ancestry_ids(cs, names).subset_of(ids),
{
    let a = ancestry_ids(cs, names);
    assert forall|r: int| 0 <= r < cs.len() && is_tip(cs[r], names) implies a.contains(#[trigger] cs[r].id@) by {
        assert(tip_id_before(cs, names, cs[r].id@, cs.len() as int));
        assert(reached_within(cs, names, cs[r].id@, 0));
    }
    assert forall|r: int, p: int|
        0 <= r < cs.len() && a.contains(cs[r].id@) && explored_row(cs, names, cs[r].id@) == Some(r) && 0 <= p
            < cs[r].parent_ids@.len() implies a.contains(#[trigger] cs[r].parent_ids@[p]@) by {
        let k = choose|k: nat| reached_within(cs, names, cs[r].id@, k);
        assert(reached_within(cs, names, cs[r].parent_ids@[p]@, k + 1));
    }
    if closed_under_parents(cs, names, ids) {
        assert forall|id: Seq<char>| a.contains(id) implies ids.contains(id) by {
            let k = choose|k: nat| reached_within(cs, names, id, k);
            lemma_reached_in_closed(cs, names, ids, id, k);
        }
    }
}

/// No two commits share an id.
pub open spec fn distinct_ids(cs: Seq<CommitInfo>) -> bool {
    forall|i: int, j: int| 0 <= i < j < cs.len() ==> cs[i].id@ != cs[j].id@
}

proof fn lemma_explored_row_is_own(cs: Seq<CommitInfo>, names: Set<Seq<char>>, r: int)
    requires
        cs.len() <= usize::MAX,
        distinct_ids(cs),
        0 <= r < cs.len(),
    ensures
        explored_row(cs, names, cs[r].id@) == Some(r),
{
    let id = cs[r].id@;
    lemma_first_tip_bounds(cs, names, id, 0);
    lemma_row_of_id_bounds(cs, id);
    lemma_last_row_upto_found(cs, id, r, cs.len() as int);
    match explored_row(cs, names, id) {
        Some(t) => {
            lemma_explored_row_bounds(cs, names, id);
            if t < r {
                assert(cs[t].id@ != cs[r].id@);
            } else if t > r {
                assert(cs[r].id@ != cs[t].id@);
            }
        },
        None => {},
    }
}

proof fn lemma_reached_mono(cs: Seq<CommitInfo>, n1: Set<Seq<char>>, n2: Set<Seq<char>>, id: Seq<char>, k: nat)
    requires
        cs.len() <= usize::MAX,
        distinct_ids(cs),
        n1.subset_of(n2),
        reached_within(cs, n1, id, k),
    ensures
        reached_within(cs, n2, id, k),
    decreases k,
{
    if k == 0 {
        let r = choose|r: int| 0 <= r < cs.len() && #[trigger] cs[r].id@ == id && is_tip(cs[r], n1);
        let j = choose|j: int| 0 <= j < cs[r].refs@.len() && n1.contains(#[trigger] cs[r].refs@[j].name@);
        assert(n2.contains(cs[r].refs@[j].name@));
        assert(is_tip(cs[r], n2));
    } else if reached_within(cs, n1, id, (k - 1) as nat) {
        lemma_reached_mono(cs, n1, n2, id, (k - 1) as nat);
    } else {
        let (r, p) = choose|r: int, p: int|
            #![trigger cs[r].parent_ids@[p]]
            0 <= r < cs.len() && explored_row(cs, n1, cs[r].id@) == Some(r) && reached_within(
                cs,
                n1,
                cs[r].id@,
                (k - 1) as nat,
            ) && 0 <= p < cs[r].parent_ids@.len() && cs[r].parent_ids@[p]@ == id;
        lemma_reached_mono(cs, n1, n2, cs[r].id@, (k - 1) as nat);
        lemma_explored_row_is_own(cs, n2, r);
        assert(cs[r].parent_ids@[p]@ == id);
    }
}

/// Hiding more branches never shows more commits: when the commit ids are
/// distinct, every commit that the Hide view shows with the larger hidden
/// list it also shows with the smaller one.
pub proof fn lemma_hide_more_shows_less(cs: Seq<CommitInfo>, hidden: Seq<String>, more: Seq<String>, c: CommitInfo)
    requires
        cs.len() <= usize::MAX,
        distinct_ids(cs),
        name_set(hidden).subset_of(name_set(more)),
        hide_view(cs, more).contains(c),
    ensures
        hide_view(cs, hidden).contains(c),
{
    if hidden.len() > 0 {
        if more.len() == 0 {
            lemma_name_set_empty(more);
            lemma_name_set_empty(hidden);
            let x = hidden[0]@;
            assert(has_name(hidden, x)) by {
                assert(texts(hidden)[0] == x);
            }
            assert(name_set(hidden).contains(x));
            assert(name_set(more).contains(x));
        }
        let n1 = branch_names_of(cs).difference(name_set(more));
        let n2 = branch_names_of(cs).difference(name_set(hidden));
        let keep1 = |x: CommitInfo| in_ancestry(cs, n1, x.id@);
        let keep2 = |x: CommitInfo| in_ancestry(cs, n2, x.id@);
        assert(hide_view(cs, more) == cs.filter(keep1));
        assert(hide_view(cs, hidden) == cs.filter(keep2));
        cs.lemma_filter_contains_rev(keep1, c);
        let i = choose|i: int| 0 <= i < cs.filter(keep1).len() && cs.filter(keep1)[i] == c;
        cs.lemma_filter_pred(keep1, i);
        let j = choose|j: int| 0 <= j < cs.len() && cs[j] == c;
        let k = choose|k: nat| reached_within(cs, n1, c.id@, k);
        lemma_reached_mono(cs, n1, n2, c.id@, k);
        assert(in_ancestry(cs, n2, c.id@));
        assert(keep2(cs[j]));
        cs.lemma_filter_contains(keep2, j);
        assert(cs.filter(keep2).contains(c));
    } else if more.len() > 0 {
        let n1 = branch_names_of(cs).difference(name_set(more));
        let keep1 = |x: CommitInfo| in_ancestry(cs, n1, x.id@);
        assert(hide_view(cs, more) == cs.filter(keep1));
        cs.lemma_filter_contains_rev(keep1, c);
    }
}

/// The Hide view keeps every commit that carries a branch reference, local or
/// remote, whose name is not hidden; with distinct commit ids it keeps that
/// commit's parents in the list too.
pub proof fn lemma_hide_keeps_shown_branches(cs: Seq<CommitInfo>, hidden: Seq<String>, r: int, j: int)
    requires
        cs.len() <= usize::MAX,
        0 <= r < cs.len(),
        0 <= j < cs[r].refs@.len(),
        cs[r].refs@[j].ref_type is LocalBranch || cs[r].refs@[j].ref_type is RemoteBranch,
        forall|k: int| 0 <= k < hidden.len() ==> hidden[k]@ != cs[r].refs@[j].name@,
    ensures
        hide_view(cs, hidden).contains(cs[r]),
        distinct_ids(cs) ==> forall|p: int, q: int|
            #![trigger cs[r].parent_ids@[p], cs[q]]
            0 <= p < cs[r].parent_ids@.len() && 0 <= q < cs.len() && cs[q].id@ == cs[r].parent_ids@[p]@
                ==> hide_view(cs, hidden).contains(cs[q]),
{
    if hidden.len() > 0 {
        let name = cs[r].refs@[j].name@;
        let n = branch_names_of(cs).difference(name_set(hidden));
        assert(branch_ref_named(cs, r, j, name));
        assert(branch_names_of(cs).contains(name));
        assert(!name_set(hidden).contains(name)) by {
            if has_name(hidden, name) {
                let k = choose|k: int| 0 <= k < hidden.len() && #[trigger] hidden[k]@ == name;
            }
        }
        assert(n.contains(name));
        assert(is_tip(cs[r], n));
        assert(tip_id_before(cs, n, cs[r].id@, cs.len() as int));
        assert(reached_within(cs, n, cs[r].id@, 0));
        let keep = |x: CommitInfo| in_ancestry(cs, n, x.id@);
        assert(hide_view(cs, hidden) == cs.filter(keep));
        assert(keep(cs[r]));
        cs.lemma_filter_contains(keep, r);
        if distinct_ids(cs) {
            lemma_explored_row_is_own(cs, n, r);
            assert forall|p: int, q: int|
                #![trigger cs[r].parent_ids@[p], cs[q]]
                0 <= p < cs[r].parent_ids@.len() && 0 <= q < cs.len() && cs[q].id@ == cs[r].parent_ids@[p]@
                    implies hide_view(cs, hidden).contains(cs[q]) by {
                assert(reached_within(cs, n, cs[q].id@, 1));
                assert(keep(cs[q]));
                cs.lemma_filter_contains(keep, q);
            }
        }
    } else {
        assert(cs.contains(cs[r]));
        assert forall|p: int, q: int|
            #![trigger cs[r].parent_ids@[p], cs[q]]
            0 <= p < cs[r].parent_ids@.len() && 0 <= q < cs.len() && cs[q].id@ == cs[r].parent_ids@[p]@
                implies hide_view(cs, hidden).contains(cs[q]) by {
            assert(cs.contains(cs[q]));
        }
    }
}

/// The branch names that the Hide view starts from are exactly the names of
/// the local and remote branch references on the commits; tags do not count.
pub proof fn lemma_branch_names_are_branch_refs(cs: Seq<CommitInfo>, s: Seq<char>)
    ensures
        branch_names_of(cs).contains(s) <==> exists|r: int, j: int|
            0 <= r < cs.len() && 0 <= j < cs[r].refs@.len() && (cs[r].refs@[j].ref_type is LocalBranch
                || cs[r].refs@[j].ref_type is RemoteBranch) && #[trigger] cs[r].refs@[j].name@ == s,
{
    if branch_names_of(cs).contains(s) {
        let (r, j) = choose|r: int, j: int| #[trigger] branch_ref_named(cs, r, j, s);
        assert(cs[r].refs@[j].name@ == s);
    }
    if exists|r: int, j: int|
        0 <= r < cs.len() && 0 <= j < cs[r].refs@.len() && (cs[r].refs@[j].ref_type is LocalBranch
            || cs[r].refs@[j].ref_type is RemoteBranch) && #[trigger] cs[r].refs@[j].name@ == s {
        let (r, j) = choose|r: int, j: int|
            0 <= r < cs.len() && 0 <= j < cs[r].refs@.len() && (cs[r].refs@[j].ref_type is LocalBranch
                || cs[r].refs@[j].ref_type is RemoteBranch) && #[trigger] cs[r].refs@[j].name@ == s;
        assert(branch_ref_named(cs, r, j, s));
    }
}

/// Once the view is reset, the Solo view followed by the Hide view shows the
/// whole commit history again.
pub proof fn lemma_reset_view_shows_all(vf: ViewFilter, cs: Seq<CommitInfo>)
    requires
        vf.soloed_branches@.len() == 0,
        vf.hidden_branches@.len() == 0,
    ensures
        hide_view(solo_view(cs, vf.soloed_branches@), vf.hidden_branches@) == cs,
{
}

} // verus!
