//! Lane layout of the commit graph.
//!
//! Commits arrive newest first; row `i` of the layout holds commit `i`. Each
//! commit gets a column (a lane). A commit whose lane was reserved by a child
//! takes that lane; otherwise it takes the leftmost free lane. A first parent
//! continues the child's lane, further parents of a merge get lanes of their
//! own. Each lane gets the smallest color that no other active lane has.
//!
//! The layout is defined below as a state machine over the rows (`rows_upto`),
//! and `compute_dag_layout` is proved to produce exactly that layout.
use std::collections::HashMap;

use vstd::prelude::*;
use vstd::set_lib::*;

use crate::models::{CommitInfo, DagEdge, DagLayout, DagNode};

verus! {

// ---------------------------------------------------------------------------
// Specification
// ---------------------------------------------------------------------------

/// Row of the last commit among the first `k` whose id is `id`.
pub open spec fn last_row_upto(cs: Seq<CommitInfo>, id: Seq<char>, k: int) -> Option<usize>
    decreases k,
{
    if k <= 0 {
        None
    } else if cs[k - 1].id@ == id {
        Some((k - 1) as usize)
    } else {
        last_row_upto(cs, id, k - 1)
    }
}

/// The row that stands for the commit id `id`: its last occurrence in `cs`.
pub open spec fn row_of_id(cs: Seq<CommitInfo>, id: Seq<char>) -> Option<usize> {
    last_row_upto(cs, id, cs.len() as int)
}

/// The row that stands for the id of commit `i`.
pub open spec fn self_row(cs: Seq<CommitInfo>, i: int) -> usize {
    row_of_id(cs, cs[i].id@)->0
}

/// The rows that stand for the parents of commit `i`, `None` for a parent outside `cs`.
pub open spec fn parent_rows(cs: Seq<CommitInfo>, i: int) -> Seq<Option<usize>> {
    Seq::new(cs[i].parent_ids@.len(), |p: int| row_of_id(cs, cs[i].parent_ids@[p]@))
}

/// The lane state between rows.
pub struct Lanes {
    /// For each row that stands for a commit id, the lane reserved for that commit.
    pub reserved: Seq<Option<usize>>,
    /// Which lanes are currently occupied.
    pub active: Seq<bool>,
    /// The color of each lane, once it has one.
    pub colors: Seq<Option<usize>>,
}

/// What the layout decides for one row.
pub struct RowPlan {
    pub column: usize,
    pub color: usize,
    pub edges: Seq<DagEdge>,
}

pub open spec fn lanes_wf(st: Lanes, n: nat) -> bool {
    &&& st.reserved.len() == n
    &&& st.active.len() == st.colors.len()
    &&& forall|x: int|
        0 <= x < st.reserved.len() && (#[trigger] st.reserved[x]) is Some ==> st.reserved[x]->0
            < st.active.len()
}

pub open spec fn initial_lanes(n: nat) -> Lanes {
    Lanes { reserved: Seq::new(n, |i: int| None), active: Seq::empty(), colors: Seq::empty() }
}

/// The leftmost free lane at or after `k` (the number of lanes if all are taken).
pub open spec fn first_free_from(active: Seq<bool>, k: int) -> usize
    decreases active.len() - k,
{
    if k >= active.len() {
        active.len() as usize
    } else if !active[k] {
        k as usize
    } else {
        first_free_from(active, k + 1)
    }
}

pub open spec fn first_free(active: Seq<bool>) -> usize {
    first_free_from(active, 0)
}

/// Marks lane `col` occupied, adding it when it is one past the last lane.
pub open spec fn occupy(st: Lanes, col: usize) -> Lanes {
    if col < st.active.len() {
        Lanes { reserved: st.reserved, active: st.active.update(col as int, true), colors: st.colors }
    } else {
        Lanes { reserved: st.reserved, active: st.active.push(true), colors: st.colors.push(None) }
    }
}

/// Color `c` is used by an active lane other than `column`.
pub open spec fn color_taken(st: Lanes, column: usize, c: usize) -> bool {
    exists|j: int|
        0 <= j < st.active.len() && j != column && #[trigger] st.active[j] && st.colors[j] == Some(c)
}

/// The smallest color at or after `c` that no other active lane uses (searching below the
/// number of lanes).
pub open spec fn least_free_color_from(st: Lanes, column: usize, c: int) -> usize
    decreases st.active.len() - c,
{
    if c >= st.active.len() {
        st.active.len() as usize
    } else if !color_taken(st, column, c as usize) {
        c as usize
    } else {
        least_free_color_from(st, column, c + 1)
    }
}

pub open spec fn assigned_color(st: Lanes, column: usize) -> usize {
    least_free_color_from(st, column, 0)
}

/// Gives lane `col` a color if it has none yet.
pub open spec fn ensure_color(st: Lanes, col: usize) -> Lanes {
    if st.colors[col as int] is None {
        Lanes {
            reserved: st.reserved,
            active: st.active,
            colors: st.colors.update(col as int, Some(assigned_color(st, col))),
        }
    } else {
        st
    }
}

/// Picks the lane of the commit that `key` stands for.
pub open spec fn place(st: Lanes, key: usize) -> (Lanes, usize) {
    match st.reserved[key as int] {
        Some(c) => (st, c),
        None => {
            let c = first_free(st.active);
            let s1 = occupy(st, c);
            (Lanes { reserved: s1.reserved.update(key as int, Some(c)), active: s1.active, colors: s1.colors }, c)
        },
    }
}

/// Handles parent number `pi` (row `prow`) of a commit placed in `column`.
pub open spec fn parent_step(
    st: Lanes,
    column: usize,
    node_color: usize,
    pi: int,
    prow: Option<usize>,
) -> (Lanes, Option<DagEdge>) {
    match prow {
        None => (st, None),
        Some(r) => {
            let (s1, pcol) = if pi == 0 {
                let s = if st.reserved[r as int] is None {
                    Lanes {
                        reserved: st.reserved.update(r as int, Some(column)),
                        active: st.active.update(column as int, true),
                        colors: st.colors,
                    }
                } else {
                    st
                };
                (s, s.reserved[r as int]->0)
            } else {
                match st.reserved[r as int] {
                    Some(c) => (st, c),
                    None => {
                        let nc = first_free(st.active);
                        let s = occupy(st, nc);
                        let s = Lanes { reserved: s.reserved.update(r as int, Some(nc)), active: s.active, colors: s.colors };
                        (ensure_color(s, nc), nc)
                    },
                }
            };
            let ecolor = match s1.colors[pcol as int] {
                Some(c) => c,
                None => node_color,
            };
            (s1, Some(DagEdge { from_column: column, to_column: pcol, to_row: r, color_index: ecolor }))
        },
    }
}

/// The first `k` parents of a commit placed in `column`.
pub open spec fn parents_upto(
    st: Lanes,
    column: usize,
    node_color: usize,
    prows: Seq<Option<usize>>,
    k: int,
) -> (Lanes, Seq<DagEdge>)
    decreases k,
{
    if k <= 0 {
        (st, Seq::empty())
    } else {
        let (s, es) = parents_upto(st, column, node_color, prows, k - 1);
        let (s2, e) = parent_step(s, column, node_color, k - 1, prows[k - 1]);
        match e {
            Some(edge) => (s2, es.push(edge)),
            None => (s2, es),
        }
    }
}

/// Lays out one commit, given the row its id stands for and the rows of its parents.
pub open spec fn row_step(st: Lanes, key: usize, prows: Seq<Option<usize>>) -> (Lanes, RowPlan) {
    let (s1, col) = place(st, key);
    let s2 = ensure_color(s1, col);
    let ncolor = s2.colors[col as int]->0;
    let (s3, edges) = parents_upto(s2, col, ncolor, prows, prows.len() as int);
    let s4 = if prows.len() == 0 {
        Lanes { reserved: s3.reserved, active: s3.active.update(col as int, false), colors: s3.colors }
    } else {
        s3
    };
    (s4, RowPlan { column: col, color: ncolor, edges })
}

/// The lane state and the plans of the first `k` rows.
pub open spec fn rows_upto(cs: Seq<CommitInfo>, k: int) -> (Lanes, Seq<RowPlan>)
    decreases k,
{
    if k <= 0 {
        (initial_lanes(cs.len()), Seq::empty())
    } else {
        let (st, plans) = rows_upto(cs, k - 1);
        let (st2, plan) = row_step(st, self_row(cs, k - 1), parent_rows(cs, k - 1));
        (st2, plans.push(plan))
    }
}

/// The plan of every row of the layout of `cs`.
pub open spec fn layout_plan(cs: Seq<CommitInfo>) -> Seq<RowPlan> {
    rows_upto(cs, cs.len() as int).1
}

/// The largest column among the first `k` plans.
pub open spec fn max_column_upto(plans: Seq<RowPlan>, k: int) -> usize
    decreases k,
{
    if k <= 0 {
        0
    } else if k == 1 {
        plans[0].column
    } else {
        let m = max_column_upto(plans, k - 1);
        if plans[k - 1].column > m {
            plans[k - 1].column
        } else {
            m
        }
    }
}

/// The number of columns the layout of `cs` spans.
pub open spec fn layout_width(cs: Seq<CommitInfo>) -> int {
    if cs.len() == 0 {
        0
    } else {
        max_column_upto(layout_plan(cs), cs.len() as int) + 1
    }
}

/// `layout` is the layout of `cs`.
pub open spec fn is_layout_of(layout: DagLayout, cs: Seq<CommitInfo>) -> bool {
    let plans = layout_plan(cs);
    &&& layout.nodes@.len() == cs.len()
    &&& layout.total_rows == cs.len()
    &&& layout.total_columns == layout_width(cs)
    &&& forall|i: int|
        0 <= i < cs.len() ==> {
            &&& (#[trigger] layout.nodes@[i]).commit_id@ == cs[i].id@
            &&& layout.nodes@[i].row == i
            &&& layout.nodes@[i].column == plans[i].column
            &&& layout.nodes@[i].color_index == plans[i].color
            &&& layout.nodes@[i].parent_edges@ == plans[i].edges
        }
}

// ---------------------------------------------------------------------------
// Implementation
// ---------------------------------------------------------------------------

/// Executable lane state: the color of each lane that has one is kept in a
/// map from lane to color.
struct LaneVecs {
    reserved: Vec<Option<usize>>,
    active: Vec<bool>,
    colors: HashMap<usize, usize>,
}

impl View for LaneVecs {
    type V = Lanes;

    closed spec fn view(&self) -> Lanes {
        Lanes {
            reserved: self.reserved@,
            active: self.active@,
            colors: Seq::new(
                self.active@.len(),
                |c: int|
                    if self.colors@.contains_key(c as usize) {
                        Some(self.colors@[c as usize])
                    } else {
                        None
                    },
            ),
        }
    }
}

impl LaneVecs {
    /// Only lanes that exist have a color.
    closed spec fn keys_ok(&self) -> bool {
        forall|k: usize| #[trigger] self.colors@.contains_key(k) ==> k < self.active@.len()
    }

    /// The color of lane `c`, if it has one.
    fn color_at(&self, c: usize) -> (r: Option<usize>)
        requires
            c < self.active@.len(),
        ensures
            r == self@.colors[c as int],
    {
        broadcast use vstd::std_specs::hash::group_hash_axioms;

        match self.colors.get(&c) {
            Some(x) => Some(*x),
            None => None,
        }
    }
}

proof fn lemma_last_row_upto_bounds(cs: Seq<CommitInfo>, id: Seq<char>, k: int)
    requires
        k <= cs.len() <= usize::MAX,
    ensures
        last_row_upto(cs, id, k) matches Some(r) ==> 0 <= r < k && cs[r as int].id@ == id,
    decreases k,
{
    if k > 0 {
        lemma_last_row_upto_bounds(cs, id, k - 1);
    }
}

pub(crate) proof fn lemma_last_row_upto_found(cs: Seq<CommitInfo>, id: Seq<char>, i: int, k: int)
    requires
        0 <= i < k <= cs.len() <= usize::MAX,
        cs[i].id@ == id,
    ensures
        last_row_upto(cs, id, k) matches Some(r) && i <= r,
    decreases k,
{
    if k - 1 != i && cs[k - 1].id@ != id {
        lemma_last_row_upto_found(cs, id, i, k - 1);
    }
}

/// The row of the last commit whose id is `id`.
pub(crate) fn last_row_of(commits: &[CommitInfo], id: &String) -> (r: Option<usize>)
    ensures
        r == row_of_id(commits@, id@),
{
    let mut res: Option<usize> = None;
    let mut j: usize = 0;
    while j < commits.len()
        invariant
            j <= commits@.len(),
            res == last_row_upto(commits@, id@, j as int),
        decreases commits@.len() - j,
    {
        if commits[j].id == *id {
            res = Some(j);
        }
        j = j + 1;
    }
    res
}

/// Find the leftmost lane that is not currently occupied.
fn find_free_column(active: &Vec<bool>) -> (r: usize)
    ensures
        r == first_free(active@),
        r <= active@.len(),
{
    let mut i: usize = 0;
    while i < active.len()
        invariant
            i <= active@.len(),
            first_free_from(active@, 0) == first_free_from(active@, i as int),
        decreases active@.len() - i,
    {
        if !active[i] {
            return i;
        }
        i = i + 1;
    }
    i
}

/// Whether color `c` is used by an active lane other than `column`.
fn color_in_use(lanes: &LaneVecs, column: usize, c: usize) -> (b: bool)
    ensures
        b == color_taken(lanes@, column, c),
{
    let mut j: usize = 0;
    while j < lanes.active.len()
        invariant
            j <= lanes.active@.len(),
            forall|k: int|
                0 <= k < j ==> !(k != column && #[trigger] lanes@.active[k] && lanes@.colors[k]
                    == Some(c)),
        decreases lanes.active@.len() - j,
    {
        if j != column && lanes.active[j] {
            match lanes.color_at(j) {
                Some(x) => {
                    if x == c {
                        assert(lanes@.active[j as int] && lanes@.colors[j as int] == Some(c));
                        return true;
                    }
                },
                None => {},
            }
        }
        j = j + 1;
    }
    false
}

/// Greedy color choice: the smallest color no other active lane uses.
fn assign_color(lanes: &LaneVecs, column: usize) -> (r: usize)
    ensures
        r == assigned_color(lanes@, column),
{
    let mut c: usize = 0;
    while c < lanes.active.len()
        invariant
            c <= lanes.active@.len(),
            assigned_color(lanes@, column) == least_free_color_from(lanes@, column, c as int),
        decreases lanes.active@.len() - c,
    {
        if !color_in_use(lanes, column, c) {
            return c;
        }
        c = c + 1;
    }
    c
}

impl LaneVecs {
    fn occupy(&mut self, col: usize)
        requires
            lanes_wf(old(self)@, old(self).reserved@.len()),
            old(self).keys_ok(),
            col <= old(self).active@.len(),
        ensures
            final(self)@ == occupy(old(self)@, col),
            lanes_wf(final(self)@, old(self).reserved@.len()),
            final(self).keys_ok(),
            col < final(self).active@.len(),
    {
        let ghost before = self@;
        if col < self.active.len() {
            self.active.set(col, true);
            assert(self@.colors =~= before.colors);
        } else {
            self.active.push(true);
            assert(!self.colors@.contains_key(col));
            assert(self@.colors =~= before.colors.push(None));
        }
    }

    fn ensure_color(&mut self, col: usize)
        requires
            lanes_wf(old(self)@, old(self).reserved@.len()),
            old(self).keys_ok(),
            col < old(self).active@.len(),
        ensures
            final(self)@ == ensure_color(old(self)@, col),
            lanes_wf(final(self)@, old(self).reserved@.len()),
            final(self).keys_ok(),
            final(self)@.colors[col as int] is Some,
    {
        broadcast use vstd::std_specs::hash::group_hash_axioms;

        let colored = match self.color_at(col) {
            Some(_) => true,
            None => false,
        };
        if !colored {
            let ghost before = self@;
            let ghost before_map = self.colors@;
            let color = assign_color(self, col);
            self.colors.insert(col, color);
            assert(self.colors@ == before_map.insert(col, color));
            let len: usize = self.active.len();
            assert forall|c: int| 0 <= c < len implies #[trigger] self@.colors[c] == before.colors.update(
                col as int,
                Some(color),
            )[c] by {
                if c == col as int {
                    assert(self.colors@.contains_key(col));
                } else {
                    let cu = c as usize;
                    assert(cu as int == c);
                    assert(self.colors@.contains_key(cu) == before_map.contains_key(cu));
                }
            }
            assert(self@.colors =~= before.colors.update(col as int, Some(color)));
        }
    }

    fn place(&mut self, key: usize) -> (col: usize)
        requires
            lanes_wf(old(self)@, old(self).reserved@.len()),
            old(self).keys_ok(),
            key < old(self).reserved@.len(),
        ensures
            (final(self)@, col) == place(old(self)@, key),
            lanes_wf(final(self)@, old(self).reserved@.len()),
            final(self).keys_ok(),
            col < final(self).active.len(),
    {
        match self.reserved[key] {
            Some(c) => c,
            None => {
                let c = find_free_column(&self.active);
                self.occupy(c);
                self.reserved.set(key, Some(c));
                c
            },
        }
    }

    fn parent_step(
        &mut self,
        column: usize,
        node_color: usize,
        pi: usize,
        prow: Option<usize>,
    ) -> (e: Option<DagEdge>)
        requires
            lanes_wf(old(self)@, old(self).reserved@.len()),
            old(self).keys_ok(),
            column < old(self).active@.len(),
            prow matches Some(r) ==> r < old(self).reserved@.len(),
        ensures
            (final(self)@, e) == parent_step(old(self)@, column, node_color, pi as int, prow),
            lanes_wf(final(self)@, old(self).reserved@.len()),
            final(self).keys_ok(),
            column < final(self).active@.len(),
    {
        match prow {
            None => None,
            Some(r) => {
                let pcol = if pi == 0 {
                    let unplaced = match self.reserved[r] {
                        Some(_) => false,
                        None => true,
                    };
                    if unplaced {
                        let ghost before = self@;
                        self.reserved.set(r, Some(column));
                        self.active.set(column, true);
                        assert(self@.colors =~= before.colors);
                    }
                    match self.reserved[r] {
                        Some(c) => c,
                        None => 0,
                    }
                } else {
                    match self.reserved[r] {
                        Some(c) => c,
                        None => {
                            let nc = find_free_column(&self.active);
                            self.occupy(nc);
                            self.reserved.set(r, Some(nc));
                            self.ensure_color(nc);
                            nc
                        },
                    }
                };
                let ecolor = match self.color_at(pcol) {
                    Some(c) => c,
                    None => node_color,
                };
                Some(DagEdge { from_column: column, to_column: pcol, to_row: r, color_index: ecolor })
            },
        }
    }
}

/// Compute a DAG layout from a topologically sorted list of commits
/// (most recent first, i.e. row 0 = newest).
///
/// Each commit gets a (row, column) position and one edge per parent that is in
/// the list. No two rows share a node, a first parent continues its child's
/// lane where it can, and each lane is colored greedily.
pub fn compute_dag_layout(commits: &[CommitInfo]) -> (layout: DagLayout)
    ensures
        is_layout_of(layout, commits@),
{
    let n = commits.len();
    let ghost cs = commits@;
    let mut reserved: Vec<Option<usize>> = Vec::new();
    let mut k: usize = 0;
    while k < n
        invariant
            k <= n,
            n == cs.len(),
            reserved@ == Seq::new(k as nat, |i: int| None::<usize>),
        decreases n - k,
    {
        reserved.push(None);
        k = k + 1;
    }
    let mut lanes = LaneVecs { reserved, active: Vec::new(), colors: HashMap::new() };
    assert(lanes@.colors =~= Seq::<Option<usize>>::empty());
    assert(lanes@ == initial_lanes(n as nat));
    let mut nodes: Vec<DagNode> = Vec::new();
    let mut i: usize = 0;
    while i < n
        invariant
            i <= n,
            n == cs.len(),
            cs == commits@,
            lanes_wf(lanes@, n as nat),
            lanes.keys_ok(),
            lanes@ == rows_upto(cs, i as int).0,
            nodes@.len() == i,
            forall|r: int|
                0 <= r < i ==> {
                    &&& (#[trigger] nodes@[r]).commit_id@ == cs[r].id@
                    &&& nodes@[r].row == r
                    &&& nodes@[r].column == rows_upto(cs, i as int).1[r].column
                    &&& nodes@[r].color_index == rows_upto(cs, i as int).1[r].color
                    &&& nodes@[r].parent_edges@ == rows_upto(cs, i as int).1[r].edges
                    &&& nodes@[r].column < usize::MAX
                },
            rows_upto(cs, i as int).1.len() == i,
        decreases n - i,
    {
        let commit = &commits[i];
        let key_opt = last_row_of(commits, &commit.id);
        proof {
            lemma_last_row_upto_found(cs, cs[i as int].id@, i as int, n as int);
            lemma_last_row_upto_bounds(cs, cs[i as int].id@, n as int);
        }
        let key = match key_opt {
            Some(r) => r,
            None => 0,
        };
        assert(key == self_row(cs, i as int));
        let ghost prows = parent_rows(cs, i as int);
        let ghost st0 = lanes@;
        let col = lanes.place(key);
        lanes.ensure_color(col);
        let node_color = match lanes.color_at(col) {
            Some(c) => c,
            None => 0,
        };
        let ghost st2 = lanes@;
        let mut edges: Vec<DagEdge> = Vec::new();
        let mut pi: usize = 0;
        let np = commit.parent_ids.len();
        while pi < np
            invariant
                pi <= np,
                np == prows.len(),
                n == cs.len(),
                prows == parent_rows(cs, i as int),
                i < n,
                cs == commits@,
                commit == cs[i as int],
                lanes_wf(lanes@, n as nat),
                lanes.keys_ok(),
                col < lanes.active@.len(),
                (lanes@, edges@) == parents_upto(st2, col, node_color, prows, pi as int),
            decreases np - pi,
        {
            let prow = last_row_of(commits, &commit.parent_ids[pi]);
            proof {
                lemma_last_row_upto_bounds(cs, cs[i as int].parent_ids@[pi as int]@, n as int);
            }
            assert(prow == prows[pi as int]);
            let e = lanes.parent_step(col, node_color, pi, prow);
            match e {
                Some(edge) => {
                    edges.push(edge);
                },
                None => {},
            }
            pi = pi + 1;
        }
        if np == 0 {
            let ghost before = lanes@;
            lanes.active.set(col, false);
            assert(lanes@.colors =~= before.colors);
        }
        proof {
            let ghost (s_prev, plans_prev) = rows_upto(cs, i as int);
            assert(st0 == s_prev);
            assert(rows_upto(cs, i + 1) == {
                let (s2, plan) = row_step(s_prev, key, prows);
                (s2, plans_prev.push(plan))
            });
        }
        let node = DagNode {
            commit_id: commit.id.clone(),
            column: col,
            row: i,
            color_index: node_color,
            parent_edges: edges,
        };
        nodes.push(node);
        i = i + 1;
    }
    let mut total_columns: usize = 0;
    if n > 0 {
        let mut m: usize = nodes[0].column;
        let mut j: usize = 1;
        while j < n
            invariant
                1 <= j <= n,
                nodes@.len() == n,
                m == max_column_upto(layout_plan(cs), j as int),
                m < usize::MAX,
                forall|r: int| 0 <= r < n ==> #[trigger] nodes@[r].column == layout_plan(cs)[r].column,
                forall|r: int| 0 <= r < n ==> #[trigger] nodes@[r].column < usize::MAX,
            decreases n - j,
        {
            if nodes[j].column > m {
                m = nodes[j].column;
            }
            j = j + 1;
        }
        total_columns = m + 1;
    }
    DagLayout { nodes, total_columns, total_rows: n }
}


// ---------------------------------------------------------------------------
// Laws of the layout
// ---------------------------------------------------------------------------

/// Lane reservations only ever go from "none" to "some lane", never change afterwards.
pub open spec fn reserved_extends(a: Seq<Option<usize>>, b: Seq<Option<usize>>) -> bool {
    &&& a.len() == b.len()
    &&& forall|x: int| 0 <= x < a.len() && (#[trigger] a[x]) is Some ==> b[x] == a[x]
}

proof fn lemma_first_free_le(active: Seq<bool>, k: int)
    requires
        0 <= k,
    ensures
        first_free_from(active, k) <= active.len(),
    decreases active.len() - k,
{
    if k < active.len() && active[k] {
        lemma_first_free_le(active, k + 1);
    }
}

proof fn lemma_occupy(st: Lanes, col: usize, n: nat)
    requires
        lanes_wf(st, n),
        col <= st.active.len(),
    ensures
        lanes_wf(occupy(st, col), n),
        occupy(st, col).reserved == st.reserved,
        col < occupy(st, col).active.len(),
        st.active.len() <= occupy(st, col).active.len(),
{
}

proof fn lemma_ensure_color(st: Lanes, col: usize, n: nat)
    requires
        lanes_wf(st, n),
        col < st.active.len(),
    ensures
        lanes_wf(ensure_color(st, col), n),
        ensure_color(st, col).reserved == st.reserved,
        ensure_color(st, col).active == st.active,
        ensure_color(st, col).colors[col as int] is Some,
{
}

proof fn lemma_place(st: Lanes, key: usize, n: nat)
    requires
        lanes_wf(st, n),
        key < n,
    ensures
        lanes_wf(place(st, key).0, n),
        reserved_extends(st.reserved, place(st, key).0.reserved),
        place(st, key).0.reserved[key as int] == Some(place(st, key).1),
        place(st, key).1 < place(st, key).0.active.len(),
{
    if st.reserved[key as int] is None {
        lemma_first_free_le(st.active, 0);
        lemma_occupy(st, first_free(st.active), n);
    }
}

proof fn lemma_parent_step(st: Lanes, column: usize, node_color: usize, pi: int, prow: Option<usize>, n: nat)
    requires
        lanes_wf(st, n),
        column < st.active.len(),
        prow matches Some(r) ==> r < n,
    ensures
        ({
            let (s2, e) = parent_step(st, column, node_color, pi, prow);
            &&& lanes_wf(s2, n)
            &&& column < s2.active.len()
            &&& reserved_extends(st.reserved, s2.reserved)
            &&& (e is Some <==> prow is Some)
            &&& (e matches Some(edge) ==> {
                &&& edge.from_column == column
                &&& Some(edge.to_row) == prow
                &&& s2.reserved[edge.to_row as int] == Some(edge.to_column)
            })
        }),
{
    if let Some(r) = prow {
        if pi != 0 && st.reserved[r as int] is None {
            let nc = first_free(st.active);
            lemma_first_free_le(st.active, 0);
            lemma_occupy(st, nc, n);
            let s = occupy(st, nc);
            let s = Lanes { reserved: s.reserved.update(r as int, Some(nc)), active: s.active, colors: s.colors };
            lemma_ensure_color(s, nc, n);
        }
    }
}

proof fn lemma_parents_upto(st: Lanes, column: usize, node_color: usize, prows: Seq<Option<usize>>, k: int, n: nat)
    requires
        lanes_wf(st, n),
        column < st.active.len(),
        0 <= k <= prows.len(),
        forall|p: int| 0 <= p < prows.len() ==> (#[trigger] prows[p] matches Some(r) ==> r < n),
    ensures
        ({
            let (s2, es) = parents_upto(st, column, node_color, prows, k);
            &&& lanes_wf(s2, n)
            &&& column < s2.active.len()
            &&& reserved_extends(st.reserved, s2.reserved)
            &&& forall|j: int| 0 <= j < es.len() ==> {
                &&& (#[trigger] es[j]).from_column == column
                &&& s2.reserved[es[j].to_row as int] == Some(es[j].to_column)
                &&& exists|p: int| 0 <= p < k && prows[p] == Some(es[j].to_row)
            }
        }),
    decreases k,
{
    if k > 0 {
        lemma_parents_upto(st, column, node_color, prows, k - 1, n);
        let (s, es) = parents_upto(st, column, node_color, prows, k - 1);
        lemma_parent_step(s, column, node_color, k - 1, prows[k - 1], n);
        let (s2, e) = parent_step(s, column, node_color, k - 1, prows[k - 1]);
        let es2 = parents_upto(st, column, node_color, prows, k).1;
        assert forall|j: int| 0 <= j < es2.len() implies {
            &&& (#[trigger] es2[j]).from_column == column
            &&& s2.reserved[es2[j].to_row as int] == Some(es2[j].to_column)
            &&& exists|p: int| 0 <= p < k && prows[p] == Some(es2[j].to_row)
        } by {
            if j < es.len() {
                assert(es2[j] == es[j]);
                let p = choose|p: int| 0 <= p < k - 1 && prows[p] == Some(es[j].to_row);
                assert(prows[p] == Some(es2[j].to_row));
            } else {
                assert(prows[k - 1] == Some(es2[j].to_row));
            }
        }
    }
}

proof fn lemma_row_step(st: Lanes, key: usize, prows: Seq<Option<usize>>, n: nat)
    requires
        lanes_wf(st, n),
        key < n,
        forall|p: int| 0 <= p < prows.len() ==> (#[trigger] prows[p] matches Some(r) ==> r < n),
    ensures
        ({
            let (s2, plan) = row_step(st, key, prows);
            &&& lanes_wf(s2, n)
            &&& reserved_extends(st.reserved, s2.reserved)
            &&& s2.reserved[key as int] == Some(plan.column)
            &&& forall|j: int| 0 <= j < plan.edges.len() ==> {
                &&& (#[trigger] plan.edges[j]).from_column == plan.column
                &&& s2.reserved[plan.edges[j].to_row as int] == Some(plan.edges[j].to_column)
                &&& exists|p: int| 0 <= p < prows.len() && prows[p] == Some(plan.edges[j].to_row)
            }
        }),
{
    lemma_place(st, key, n);
    let (s1, col) = place(st, key);
    lemma_ensure_color(s1, col, n);
    let s2 = ensure_color(s1, col);
    let ncolor = s2.colors[col as int]->0;
    lemma_parents_upto(s2, col, ncolor, prows, prows.len() as int, n);
}

pub(crate) proof fn lemma_row_of_id_bounds(cs: Seq<CommitInfo>, id: Seq<char>)
    requires
        cs.len() <= usize::MAX,
    ensures
        row_of_id(cs, id) matches Some(r) ==> r < cs.len() && cs[r as int].id@ == id,
{
    lemma_last_row_upto_bounds(cs, id, cs.len() as int);
}

/// The row standing for an id is the last one carrying it, so it stands for itself.
proof fn lemma_row_of_id_is_fixed(cs: Seq<CommitInfo>, id: Seq<char>)
    requires
        cs.len() <= usize::MAX,
        row_of_id(cs, id) is Some,
    ensures
        self_row(cs, row_of_id(cs, id)->0 as int) == row_of_id(cs, id)->0,
{
    lemma_row_of_id_bounds(cs, id);
}

proof fn lemma_self_row_bounds(cs: Seq<CommitInfo>, i: int)
    requires
        cs.len() <= usize::MAX,
        0 <= i < cs.len(),
    ensures
        self_row(cs, i) < cs.len(),
        row_of_id(cs, cs[i].id@) is Some,
{
    lemma_last_row_upto_found(cs, cs[i].id@, i, cs.len() as int);
    lemma_last_row_upto_bounds(cs, cs[i].id@, cs.len() as int);
}

proof fn lemma_parent_rows_bounds(cs: Seq<CommitInfo>, i: int)
    requires
        cs.len() <= usize::MAX,
        0 <= i < cs.len(),
    ensures
        forall|p: int|
            0 <= p < parent_rows(cs, i).len() ==> (#[trigger] parent_rows(cs, i)[p] matches Some(r) ==> r
                < cs.len() && self_row(cs, r as int) == r),
{
    assert forall|p: int| 0 <= p < parent_rows(cs, i).len() implies (#[trigger] parent_rows(cs, i)[p] matches Some(r) ==> r
        < cs.len() && self_row(cs, r as int) == r) by {
        let id = cs[i].parent_ids@[p]@;
        lemma_row_of_id_bounds(cs, id);
        if row_of_id(cs, id) is Some {
            lemma_row_of_id_is_fixed(cs, id);
        }
    }
}

/// What holds of the lane state and the plans after the first `k` rows.
pub open spec fn rows_invariant(cs: Seq<CommitInfo>, k: int) -> bool {
    let (st, plans) = rows_upto(cs, k);
    &&& lanes_wf(st, cs.len())
    &&& plans.len() == k
    &&& forall|i: int|
        0 <= i < k ==> st.reserved[self_row(cs, i) as int] == Some((#[trigger] plans[i]).column)
    &&& forall|i: int, j: int|
        0 <= i < k && 0 <= j < plans[i].edges.len() ==> {
            &&& (#[trigger] plans[i].edges[j]).from_column == plans[i].column
            &&& st.reserved[plans[i].edges[j].to_row as int] == Some(plans[i].edges[j].to_column)
            &&& exists|p: int|
                0 <= p < parent_rows(cs, i).len() && parent_rows(cs, i)[p] == Some(
                    plans[i].edges[j].to_row,
                )
        }
}

proof fn lemma_rows_invariant(cs: Seq<CommitInfo>, k: int)
    requires
        cs.len() <= usize::MAX,
        0 <= k <= cs.len(),
    ensures
        rows_invariant(cs, k),
        forall|i: int| 0 <= i < k ==> #[trigger] rows_upto(cs, k).1[i] == rows_upto(cs, i + 1).1[i],
    decreases k,
{
    if k > 0 {
        lemma_rows_invariant(cs, k - 1);
        let (st, plans) = rows_upto(cs, k - 1);
        lemma_self_row_bounds(cs, k - 1);
        lemma_parent_rows_bounds(cs, k - 1);
        lemma_row_step(st, self_row(cs, k - 1), parent_rows(cs, k - 1), cs.len());
        let (st2, plan) = row_step(st, self_row(cs, k - 1), parent_rows(cs, k - 1));
        let plans2 = plans.push(plan);
        assert forall|i: int| 0 <= i < k implies st2.reserved[self_row(cs, i) as int] == Some((#[trigger] plans2[i]).column) by {
            if i < k - 1 {
                lemma_self_row_bounds(cs, i);
                assert(plans2[i] == plans[i]);
            }
        }
        assert forall|i: int, j: int| 0 <= i < k && 0 <= j < plans2[i].edges.len() implies {
            &&& (#[trigger] plans2[i].edges[j]).from_column == plans2[i].column
            &&& st2.reserved[plans2[i].edges[j].to_row as int] == Some(plans2[i].edges[j].to_column)
            &&& exists|p: int|
                0 <= p < parent_rows(cs, i).len() && parent_rows(cs, i)[p] == Some(
                    plans2[i].edges[j].to_row,
                )
        } by {
            if i < k - 1 {
                assert(plans2[i] == plans[i]);
                let p = choose|p: int|
                    0 <= p < parent_rows(cs, i).len() && parent_rows(cs, i)[p] == Some(
                        plans[i].edges[j].to_row,
                    );
                lemma_parent_rows_bounds(cs, i);
                assert(parent_rows(cs, i)[p] matches Some(r) ==> r < cs.len());
            }
        }
    }
}

/// Every edge starts at its node's column and ends at the row and column of the parent
/// it stands for: edge `e` of row `i` leads to row `e.to_row`, which holds a parent of
/// commit `i`, and the node there sits in column `e.to_column`.
pub proof fn lemma_edges_connect_parents(cs: Seq<CommitInfo>, i: int, j: int)
    requires
        cs.len() <= usize::MAX,
        0 <= i < cs.len(),
        0 <= j < layout_plan(cs)[i].edges.len(),
    ensures
        ({
            let plans = layout_plan(cs);
            let e = plans[i].edges[j];
            &&& e.from_column == plans[i].column
            &&& e.to_row < cs.len()
            &&& plans[e.to_row as int].column == e.to_column
            &&& exists|p: int|
                0 <= p < cs[i].parent_ids@.len() && row_of_id(cs, cs[i].parent_ids@[p]@) == Some(
                    e.to_row,
                )
        }),
{
    let n = cs.len() as int;
    lemma_rows_invariant(cs, n);
    let (st, plans) = rows_upto(cs, n);
    let e = plans[i].edges[j];
    let p = choose|p: int| 0 <= p < parent_rows(cs, i).len() && parent_rows(cs, i)[p] == Some(e.to_row);
    lemma_parent_rows_bounds(cs, i);
    assert(parent_rows(cs, i)[p] matches Some(r) ==> r < cs.len() && self_row(cs, r as int) == r);
    let r = e.to_row as int;
    assert(st.reserved[self_row(cs, r) as int] == Some(plans[r].column));
}

/// `b` keeps every color that `a` gives a lane, and may color more lanes.
pub open spec fn colors_extend(a: Seq<Option<usize>>, b: Seq<Option<usize>>) -> bool {
    &&& a.len() <= b.len()
    &&& forall|c: int| 0 <= c < a.len() && (#[trigger] a[c]) is Some ==> b[c] == a[c]
}

/// Every reserved lane has a color.
pub open spec fn reserved_colored(st: Lanes) -> bool {
    forall|x: int|
        0 <= x < st.reserved.len() && (#[trigger] st.reserved[x]) is Some ==> st.colors[st.reserved[x]->0 as int] is Some
}

proof fn lemma_colors_extend_trans(a: Seq<Option<usize>>, b: Seq<Option<usize>>, c: Seq<Option<usize>>)
    requires
        colors_extend(a, b),
        colors_extend(b, c),
    ensures
        colors_extend(a, c),
{
    assert forall|x: int| 0 <= x < a.len() && (#[trigger] a[x]) is Some implies c[x] == a[x] by {
        assert(b[x] == a[x]);
    }
}

proof fn lemma_parent_step_colors(st: Lanes, column: usize, node_color: usize, pi: int, prow: Option<usize>, n: nat)
    requires
        lanes_wf(st, n),
        reserved_colored(st),
        column < st.active.len(),
        st.colors[column as int] is Some,
        prow matches Some(r) ==> r < n,
    ensures
        ({
            let (s2, e) = parent_step(st, column, node_color, pi, prow);
            &&& colors_extend(st.colors, s2.colors)
            &&& reserved_colored(s2)
            &&& (e matches Some(edge) ==> s2.colors[edge.to_column as int] == Some(edge.color_index))
        }),
{
    lemma_parent_step(st, column, node_color, pi, prow, n);
    if let Some(r) = prow {
        if pi == 0 {
            if st.reserved[r as int] is None {
                let s = Lanes {
                    reserved: st.reserved.update(r as int, Some(column)),
                    active: st.active.update(column as int, true),
                    colors: st.colors,
                };
                assert forall|x: int| 0 <= x < s.reserved.len() && (#[trigger] s.reserved[x]) is Some implies s.colors[s.reserved[x]->0 as int] is Some by {
                    if x != r {
                        assert(s.reserved[x] == st.reserved[x]);
                    }
                }
            }
        } else if st.reserved[r as int] is None {
            let nc = first_free(st.active);
            lemma_first_free_le(st.active, 0);
            lemma_occupy(st, nc, n);
            let s0 = occupy(st, nc);
            let s = Lanes { reserved: s0.reserved.update(r as int, Some(nc)), active: s0.active, colors: s0.colors };
            lemma_ensure_color(s, nc, n);
            let s3 = ensure_color(s, nc);
            assert forall|x: int| 0 <= x < s3.reserved.len() && (#[trigger] s3.reserved[x]) is Some implies s3.colors[s3.reserved[x]->0 as int] is Some by {
                if x != r {
                    assert(s3.reserved[x] == st.reserved[x]);
                    let c = st.reserved[x]->0;
                    assert(st.colors[c as int] is Some);
                    assert(s0.colors[c as int] == st.colors[c as int]);
                }
            }
            assert forall|c: int| 0 <= c < st.colors.len() && (#[trigger] st.colors[c]) is Some implies s3.colors[c] == st.colors[c] by {
                assert(s0.colors[c] == st.colors[c]);
            }
        }
    }
}

proof fn lemma_parents_upto_colors(st: Lanes, column: usize, node_color: usize, prows: Seq<Option<usize>>, k: int, n: nat)
    requires
        lanes_wf(st, n),
        reserved_colored(st),
        column < st.active.len(),
        st.colors[column as int] is Some,
        0 <= k <= prows.len(),
        forall|p: int| 0 <= p < prows.len() ==> (#[trigger] prows[p] matches Some(r) ==> r < n),
    ensures
        ({
            let (s2, es) = parents_upto(st, column, node_color, prows, k);
            &&& colors_extend(st.colors, s2.colors)
            &&& reserved_colored(s2)
            &&& forall|j: int| 0 <= j < es.len() ==> s2.colors[(#[trigger] es[j]).to_column as int] == Some(es[j].color_index)
        }),
    decreases k,
{
    if k > 0 {
        lemma_parents_upto_colors(st, column, node_color, prows, k - 1, n);
        lemma_parents_upto(st, column, node_color, prows, k - 1, n);
        let (s, es) = parents_upto(st, column, node_color, prows, k - 1);
        assert(s.colors[column as int] == st.colors[column as int]);
        lemma_parent_step_colors(s, column, node_color, k - 1, prows[k - 1], n);
        lemma_parent_step(s, column, node_color, k - 1, prows[k - 1], n);
        let (s2, e) = parent_step(s, column, node_color, k - 1, prows[k - 1]);
        lemma_colors_extend_trans(st.colors, s.colors, s2.colors);
        let es2 = parents_upto(st, column, node_color, prows, k).1;
        assert forall|j: int| 0 <= j < es2.len() implies s2.colors[(#[trigger] es2[j]).to_column as int] == Some(es2[j].color_index) by {
            if j < es.len() {
                assert(es2[j] == es[j]);
                assert(s.reserved[es[j].to_row as int] == Some(es[j].to_column));
                assert(s.colors[es[j].to_column as int] == Some(es[j].color_index));
            }
        }
    }
}

proof fn lemma_row_step_colors(st: Lanes, key: usize, prows: Seq<Option<usize>>, n: nat)
    requires
        lanes_wf(st, n),
        reserved_colored(st),
        key < n,
        forall|p: int| 0 <= p < prows.len() ==> (#[trigger] prows[p] matches Some(r) ==> r < n),
    ensures
        ({
            let (s4, plan) = row_step(st, key, prows);
            &&& colors_extend(st.colors, s4.colors)
            &&& reserved_colored(s4)
            &&& s4.colors[plan.column as int] == Some(plan.color)
            &&& forall|j: int| 0 <= j < plan.edges.len() ==> s4.colors[(#[trigger] plan.edges[j]).to_column as int] == Some(plan.edges[j].color_index)
        }),
{
    lemma_place(st, key, n);
    let (s1, col) = place(st, key);
    if st.reserved[key as int] is None {
        lemma_first_free_le(st.active, 0);
        lemma_occupy(st, first_free(st.active), n);
    }
    assert(colors_extend(st.colors, s1.colors));
    lemma_ensure_color(s1, col, n);
    let s2 = ensure_color(s1, col);
    assert(colors_extend(s1.colors, s2.colors));
    lemma_colors_extend_trans(st.colors, s1.colors, s2.colors);
    assert forall|x: int| 0 <= x < s2.reserved.len() && (#[trigger] s2.reserved[x]) is Some implies s2.colors[s2.reserved[x]->0 as int] is Some by {
        if x != key {
            if st.reserved[key as int] is None {
                assert(s2.reserved[x] == st.reserved[x]);
            }
            let c = st.reserved[x]->0;
            assert(st.colors[c as int] is Some);
        }
    }
    let ncolor = s2.colors[col as int]->0;
    lemma_parents_upto_colors(s2, col, ncolor, prows, prows.len() as int, n);
    lemma_parents_upto(s2, col, ncolor, prows, prows.len() as int, n);
    let (s3, edges) = parents_upto(s2, col, ncolor, prows, prows.len() as int);
    lemma_colors_extend_trans(st.colors, s2.colors, s3.colors);
}

/// What holds of the colors after the first `k` rows: each node's color is
/// the color its column has kept since, and so is each edge's.
proof fn lemma_rows_colors(cs: Seq<CommitInfo>, k: int)
    requires
        cs.len() <= usize::MAX,
        0 <= k <= cs.len(),
    ensures
        ({
            let (st, plans) = rows_upto(cs, k);
            &&& reserved_colored(st)
            &&& forall|i: int| 0 <= i < k ==> st.colors[(#[trigger] plans[i]).column as int] == Some(plans[i].color)
            &&& forall|i: int, j: int|
                0 <= i < k && 0 <= j < plans[i].edges.len() ==> st.colors[(#[trigger] plans[i].edges[j]).to_column as int]
                    == Some(plans[i].edges[j].color_index)
        }),
    decreases k,
{
    if k > 0 {
        lemma_rows_colors(cs, k - 1);
        lemma_rows_invariant(cs, k - 1);
        let (st, plans) = rows_upto(cs, k - 1);
        lemma_self_row_bounds(cs, k - 1);
        lemma_parent_rows_bounds(cs, k - 1);
        lemma_row_step_colors(st, self_row(cs, k - 1), parent_rows(cs, k - 1), cs.len());
        lemma_row_step(st, self_row(cs, k - 1), parent_rows(cs, k - 1), cs.len());
        let (st2, plan) = row_step(st, self_row(cs, k - 1), parent_rows(cs, k - 1));
        let plans2 = plans.push(plan);
        assert forall|i: int| 0 <= i < k implies st2.colors[(#[trigger] plans2[i]).column as int] == Some(plans2[i].color) by {
            if i < k - 1 {
                assert(plans2[i] == plans[i]);
                lemma_self_row_bounds(cs, i);
                assert(st.reserved[self_row(cs, i) as int] == Some(plans[i].column));
                assert(st.colors[plans[i].column as int] == Some(plans[i].color));
            }
        }
        assert forall|i: int, j: int|
            0 <= i < k && 0 <= j < plans2[i].edges.len() implies st2.colors[(#[trigger] plans2[i].edges[j]).to_column as int]
                == Some(plans2[i].edges[j].color_index) by {
            if i < k - 1 {
                assert(plans2[i] == plans[i]);
                let e = plans[i].edges[j];
                let p = choose|p: int| 0 <= p < parent_rows(cs, i).len() && parent_rows(cs, i)[p] == Some(e.to_row);
                lemma_parent_rows_bounds(cs, i);
                assert(parent_rows(cs, i)[p] matches Some(r) ==> r < cs.len());
                assert(st.reserved[e.to_row as int] == Some(e.to_column));
                assert(st.colors[e.to_column as int] == Some(e.color_index));
            }
        }
    }
}

/// One color per column: two nodes in the same column have the same color.
pub proof fn lemma_one_color_per_column(cs: Seq<CommitInfo>, i: int, j: int)
    requires
        cs.len() <= usize::MAX,
        0 <= i < cs.len(),
        0 <= j < cs.len(),
        layout_plan(cs)[i].column == layout_plan(cs)[j].column,
    ensures
        layout_plan(cs)[i].color == layout_plan(cs)[j].color,
{
    lemma_rows_colors(cs, cs.len() as int);
}

/// An edge takes the color of the node it leads to, which is the color of
/// that node's column.
pub proof fn lemma_edge_takes_parent_color(cs: Seq<CommitInfo>, i: int, j: int)
    requires
        cs.len() <= usize::MAX,
        0 <= i < cs.len(),
        0 <= j < layout_plan(cs)[i].edges.len(),
    ensures
        layout_plan(cs)[i].edges[j].color_index == layout_plan(cs)[layout_plan(cs)[i].edges[j].to_row as int].color,
{
    lemma_rows_colors(cs, cs.len() as int);
    lemma_edges_connect_parents(cs, i, j);
    let plans = layout_plan(cs);
    let e = plans[i].edges[j];
    assert(rows_upto(cs, cs.len() as int).0.colors[plans[e.to_row as int].column as int] == Some(plans[e.to_row as int].color));
}

/// How many of the first `k` rows have a lane reserved.
pub open spec fn reserved_count(r: Seq<Option<usize>>, k: int) -> nat
    decreases k,
{
    if k <= 0 {
        0
    } else {
        reserved_count(r, k - 1) + if r[k - 1] is Some {
            1nat
        } else {
            0nat
        }
    }
}

/// There are no more lanes than rows with a reserved lane.
pub open spec fn lanes_fit(st: Lanes) -> bool {
    st.active.len() <= reserved_count(st.reserved, st.reserved.len() as int)
}

proof fn lemma_reserved_count_update(r: Seq<Option<usize>>, x: int, v: usize, k: int)
    requires
        0 <= x < r.len(),
        0 <= k <= r.len(),
    ensures
        reserved_count(r.update(x, Some(v)), k) == reserved_count(r, k) + if x < k && r[x] is None {
            1nat
        } else {
            0nat
        },
    decreases k,
{
    if k > 0 {
        lemma_reserved_count_update(r, x, v, k - 1);
    }
}

proof fn lemma_reserved_count_le(r: Seq<Option<usize>>, k: int)
    requires
        0 <= k <= r.len(),
    ensures
        reserved_count(r, k) <= k,
    decreases k,
{
    if k > 0 {
        lemma_reserved_count_le(r, k - 1);
    }
}

proof fn lemma_parent_step_fits(st: Lanes, column: usize, node_color: usize, pi: int, prow: Option<usize>, n: nat)
    requires
        lanes_wf(st, n),
        lanes_fit(st),
        column < st.active.len(),
        prow matches Some(r) ==> r < n,
    ensures
        lanes_fit(parent_step(st, column, node_color, pi, prow).0),
{
    if let Some(r) = prow {
        if pi == 0 {
            if st.reserved[r as int] is None {
                lemma_reserved_count_update(st.reserved, r as int, column, n as int);
            }
        } else if st.reserved[r as int] is None {
            let nc = first_free(st.active);
            lemma_first_free_le(st.active, 0);
            lemma_occupy(st, nc, n);
            lemma_reserved_count_update(st.reserved, r as int, nc, n as int);
        }
    }
}

proof fn lemma_parents_upto_fits(st: Lanes, column: usize, node_color: usize, prows: Seq<Option<usize>>, k: int, n: nat)
    requires
        lanes_wf(st, n),
        lanes_fit(st),
        column < st.active.len(),
        0 <= k <= prows.len(),
        forall|p: int| 0 <= p < prows.len() ==> (#[trigger] prows[p] matches Some(r) ==> r < n),
    ensures
        lanes_fit(parents_upto(st, column, node_color, prows, k).0),
    decreases k,
{
    if k > 0 {
        lemma_parents_upto_fits(st, column, node_color, prows, k - 1, n);
        lemma_parents_upto(st, column, node_color, prows, k - 1, n);
        let (s, es) = parents_upto(st, column, node_color, prows, k - 1);
        lemma_parent_step_fits(s, column, node_color, k - 1, prows[k - 1], n);
    }
}

proof fn lemma_row_step_fits(st: Lanes, key: usize, prows: Seq<Option<usize>>, n: nat)
    requires
        lanes_wf(st, n),
        lanes_fit(st),
        key < n,
        forall|p: int| 0 <= p < prows.len() ==> (#[trigger] prows[p] matches Some(r) ==> r < n),
    ensures
        lanes_fit(row_step(st, key, prows).0),
{
    lemma_place(st, key, n);
    if st.reserved[key as int] is None {
        lemma_first_free_le(st.active, 0);
        lemma_occupy(st, first_free(st.active), n);
        lemma_reserved_count_update(st.reserved, key as int, first_free(st.active), n as int);
    }
    let (s1, col) = place(st, key);
    lemma_ensure_color(s1, col, n);
    let s2 = ensure_color(s1, col);
    let ncolor = s2.colors[col as int]->0;
    lemma_parents_upto(s2, col, ncolor, prows, prows.len() as int, n);
    lemma_parents_upto_fits(s2, col, ncolor, prows, prows.len() as int, n);
}

proof fn lemma_rows_fit(cs: Seq<CommitInfo>, k: int)
    requires
        cs.len() <= usize::MAX,
        0 <= k <= cs.len(),
    ensures
        lanes_fit(rows_upto(cs, k).0),
    decreases k,
{
    if k == 0 {
        let r = initial_lanes(cs.len()).reserved;
        assert(reserved_count(r, r.len() as int) >= 0);
    } else {
        lemma_rows_fit(cs, k - 1);
        lemma_rows_invariant(cs, k - 1);
        let st = rows_upto(cs, k - 1).0;
        lemma_self_row_bounds(cs, k - 1);
        lemma_parent_rows_bounds(cs, k - 1);
        lemma_row_step_fits(st, self_row(cs, k - 1), parent_rows(cs, k - 1), cs.len());
    }
}

proof fn lemma_max_column_below(plans: Seq<RowPlan>, k: int, bound: int)
    requires
        0 < k <= plans.len(),
        forall|i: int| 0 <= i < k ==> (#[trigger] plans[i]).column < bound,
    ensures
        max_column_upto(plans, k) < bound,
    decreases k,
{
    if k > 1 {
        lemma_max_column_below(plans, k - 1, bound);
    }
}

/// The layout is never wider than the number of commits.
pub proof fn lemma_width_at_most_commits(cs: Seq<CommitInfo>)
    requires
        cs.len() <= usize::MAX,
    ensures
        layout_width(cs) <= cs.len(),
{
    let n = cs.len() as int;
    if n > 0 {
        lemma_rows_invariant(cs, n);
        lemma_rows_fit(cs, n);
        let (st, plans) = rows_upto(cs, n);
        lemma_reserved_count_le(st.reserved, n);
        assert forall|i: int| 0 <= i < n implies (#[trigger] plans[i]).column < st.active.len() by {
            lemma_self_row_bounds(cs, i);
            assert(st.reserved[self_row(cs, i) as int] == Some(plans[i].column));
        }
        lemma_max_column_below(plans, n, st.active.len() as int);
    }
}

/// The rows among `prows[..k]` that stand for a commit of the list, in order.
pub open spec fn present_rows(prows: Seq<Option<usize>>, k: int) -> Seq<usize>
    decreases k,
{
    if k <= 0 {
        Seq::empty()
    } else {
        match prows[k - 1] {
            Some(r) => present_rows(prows, k - 1).push(r),
            None => present_rows(prows, k - 1),
        }
    }
}

/// The rows that the edges of a plan lead to.
pub open spec fn edge_rows(edges: Seq<DagEdge>) -> Seq<usize> {
    edges.map_values(|e: DagEdge| e.to_row)
}

proof fn lemma_parents_upto_rows(st: Lanes, column: usize, node_color: usize, prows: Seq<Option<usize>>, k: int)
    requires
        0 <= k <= prows.len(),
    ensures
        edge_rows(parents_upto(st, column, node_color, prows, k).1) == present_rows(prows, k),
    decreases k,
{
    if k > 0 {
        lemma_parents_upto_rows(st, column, node_color, prows, k - 1);
        let (s, es) = parents_upto(st, column, node_color, prows, k - 1);
        let (s2, e) = parent_step(s, column, node_color, k - 1, prows[k - 1]);
        match e {
            Some(edge) => {
                assert(edge_rows(es.push(edge)) =~= edge_rows(es).push(edge.to_row));
            },
            None => {},
        }
    }
}

/// A node's edges are exactly its parents that are in the list, in the order
/// of its parent ids, one edge each; a parent outside the list gets none.
pub proof fn lemma_edges_are_parents(cs: Seq<CommitInfo>, i: int)
    requires
        cs.len() <= usize::MAX,
        0 <= i < cs.len(),
    ensures
        edge_rows(layout_plan(cs)[i].edges) == present_rows(parent_rows(cs, i), cs[i].parent_ids@.len() as int),
{
    let n = cs.len() as int;
    lemma_rows_invariant(cs, n);
    assert(rows_upto(cs, n).1[i] == rows_upto(cs, i + 1).1[i]);
    lemma_rows_invariant(cs, i);
    let (st, plans) = rows_upto(cs, i);
    let prows = parent_rows(cs, i);
    let (s1, col) = place(st, self_row(cs, i));
    let s2 = ensure_color(s1, col);
    let ncolor = s2.colors[col as int]->0;
    assert(rows_upto(cs, i + 1).1[i] == row_step(st, self_row(cs, i), prows).1);
    lemma_parents_upto_rows(s2, col, ncolor, prows, prows.len() as int);
}

/// When every parent that is in the list comes after its child (the list is
/// topologically sorted, newest first), every edge goes down: child row < parent row.
pub proof fn lemma_edges_go_down(cs: Seq<CommitInfo>, i: int, j: int)
    requires
        cs.len() <= usize::MAX,
        forall|a: int, p: int|
            0 <= a < cs.len() && 0 <= p < cs[a].parent_ids@.len() ==> (#[trigger] row_of_id(
                cs,
                cs[a].parent_ids@[p]@,
            ) matches Some(r) ==> a < r),
        0 <= i < cs.len(),
        0 <= j < layout_plan(cs)[i].edges.len(),
    ensures
        i < layout_plan(cs)[i].edges[j].to_row,
{
    lemma_edges_connect_parents(cs, i, j);
}


proof fn lemma_least_free_color_from(st: Lanes, column: usize, c: int)
    requires
        0 <= c,
        st.active.len() <= usize::MAX,
    ensures
        c <= least_free_color_from(st, column, c) <= st.active.len() || st.active.len() < c,
        forall|x: int|
            c <= x < least_free_color_from(st, column, c) ==> #[trigger] color_taken(st, column, x as usize),
        least_free_color_from(st, column, c) < st.active.len() ==> !color_taken(
            st,
            column,
            least_free_color_from(st, column, c),
        ),
    decreases st.active.len() - c,
{
    if c < st.active.len() && color_taken(st, column, c as usize) {
        lemma_least_free_color_from(st, column, c + 1);
    }
}

/// Among the colors below the number of lanes, some color is used by no active lane
/// other than `column` (there are fewer other lanes than such colors).
proof fn lemma_some_color_free(st: Lanes, column: usize)
    requires
        st.active.len() == st.colors.len(),
        column < st.active.len() <= usize::MAX,
    ensures
        exists|c: int| 0 <= c < st.active.len() && !#[trigger] color_taken(st, column, c as usize),
{
    let len = st.active.len() as int;
    if forall|c: int| 0 <= c < len ==> #[trigger] color_taken(st, column, c as usize) {
        let owner = |c: int|
            choose|j: int|
                0 <= j < st.active.len() && j != column && #[trigger] st.active[j] && st.colors[j]
                    == Some(c as usize);
        let colors_set = set_int_range(0, len);
        let lanes_set = set_int_range(0, len).remove(column as int);
        lemma_int_range(0, len);
        assert forall|c: int| colors_set.contains(c) implies lanes_set.contains(owner(c)) && st.colors[owner(c)] == Some(c as usize) by {
            assert(color_taken(st, column, c as usize));
        }
        assert(vstd::relations::injective_on(owner, colors_set)) by {
            assert forall|a: int, b: int| colors_set.contains(a) && colors_set.contains(b) && #[trigger] owner(a) == #[trigger] owner(b) implies a == b by {
                assert(st.colors[owner(a)] == Some(a as usize));
                assert(st.colors[owner(b)] == Some(b as usize));
            }
        }
        lemma_map_size(colors_set, colors_set.map(owner), owner);
        assert(colors_set.map(owner).subset_of(lanes_set));
        lemma_len_subset(colors_set.map(owner), lanes_set);
    }
}

/// The color given to a lane is the smallest color that no other active lane uses.
pub proof fn lemma_assigned_color_is_least_free(st: Lanes, column: usize)
    requires
        st.active.len() == st.colors.len(),
        column < st.active.len() <= usize::MAX,
    ensures
        assigned_color(st, column) < st.active.len(),
        !color_taken(st, column, assigned_color(st, column)),
        forall|c: int| 0 <= c < assigned_color(st, column) ==> #[trigger] color_taken(st, column, c as usize),
{
    lemma_least_free_color_from(st, column, 0);
    lemma_some_color_free(st, column);
    let w = choose|c: int| 0 <= c < st.active.len() && !#[trigger] color_taken(st, column, c as usize);
    if assigned_color(st, column) >= st.active.len() {
        assert(color_taken(st, column, w as usize));
    }
}


/// No row before `k` names row `x`, neither as its own id nor as a parent.
pub open spec fn untouched_before(cs: Seq<CommitInfo>, x: int, k: int) -> bool {
    &&& forall|j: int| 0 <= j < k ==> #[trigger] self_row(cs, j) != x
    &&& forall|j: int, p: int|
        0 <= j < k && 0 <= p < parent_rows(cs, j).len() ==> #[trigger] parent_rows(cs, j)[p] != Some(x as usize)
}

proof fn lemma_parents_upto_untouched(st: Lanes, column: usize, node_color: usize, prows: Seq<Option<usize>>, k: int, x: int, n: nat)
    requires
        lanes_wf(st, n),
        column < st.active.len(),
        0 <= k <= prows.len(),
        0 <= x < n,
        forall|p: int| 0 <= p < prows.len() ==> (#[trigger] prows[p] matches Some(r) ==> r < n),
        forall|p: int| 0 <= p < k ==> #[trigger] prows[p] != Some(x as usize),
    ensures
        parents_upto(st, column, node_color, prows, k).0.reserved[x] == st.reserved[x],
    decreases k,
{
    if k > 0 {
        lemma_parents_upto_untouched(st, column, node_color, prows, k - 1, x, n);
        lemma_parents_upto(st, column, node_color, prows, k - 1, n);
        let (s, es) = parents_upto(st, column, node_color, prows, k - 1);
        assert(prows[k - 1] != Some(x as usize));
    }
}

proof fn lemma_parents_upto_extends(st: Lanes, column: usize, node_color: usize, prows: Seq<Option<usize>>, m: int, k: int, n: nat)
    requires
        lanes_wf(st, n),
        column < st.active.len(),
        0 <= m <= k <= prows.len(),
        forall|p: int| 0 <= p < prows.len() ==> (#[trigger] prows[p] matches Some(r) ==> r < n),
    ensures
        reserved_extends(
            parents_upto(st, column, node_color, prows, m).0.reserved,
            parents_upto(st, column, node_color, prows, k).0.reserved,
        ),
    decreases k - m,
{
    if m < k {
        lemma_parents_upto_extends(st, column, node_color, prows, m, k - 1, n);
        lemma_parents_upto(st, column, node_color, prows, k - 1, n);
        let (s, es) = parents_upto(st, column, node_color, prows, k - 1);
        lemma_parent_step(s, column, node_color, k - 1, prows[k - 1], n);
    }
}

proof fn lemma_rows_untouched(cs: Seq<CommitInfo>, x: int, k: int)
    requires
        cs.len() <= usize::MAX,
        0 <= k <= cs.len(),
        0 <= x < cs.len(),
        untouched_before(cs, x, k),
    ensures
        rows_upto(cs, k).0.reserved[x] is None,
    decreases k,
{
    if k > 0 {
        lemma_rows_untouched(cs, x, k - 1);
        lemma_rows_invariant(cs, k - 1);
        let st = rows_upto(cs, k - 1).0;
        let key = self_row(cs, k - 1);
        let prows = parent_rows(cs, k - 1);
        lemma_self_row_bounds(cs, k - 1);
        lemma_parent_rows_bounds(cs, k - 1);
        lemma_place(st, key, cs.len());
        let (s1, col) = place(st, key);
        lemma_ensure_color(s1, col, cs.len());
        let s2 = ensure_color(s1, col);
        let ncolor = s2.colors[col as int]->0;
        assert forall|p: int| 0 <= p < prows.len() implies #[trigger] prows[p] != Some(x as usize) by {
            assert(untouched_before(cs, x, k));
        }
        lemma_parents_upto_untouched(s2, col, ncolor, prows, prows.len() as int, x, cs.len());
    }
}

proof fn lemma_rows_extends(cs: Seq<CommitInfo>, m: int, k: int)
    requires
        cs.len() <= usize::MAX,
        0 <= m <= k <= cs.len(),
    ensures
        reserved_extends(rows_upto(cs, m).0.reserved, rows_upto(cs, k).0.reserved),
    decreases k - m,
{
    if m < k {
        lemma_rows_extends(cs, m, k - 1);
        lemma_rows_invariant(cs, k - 1);
        lemma_self_row_bounds(cs, k - 1);
        lemma_parent_rows_bounds(cs, k - 1);
        lemma_row_step(rows_upto(cs, k - 1).0, self_row(cs, k - 1), parent_rows(cs, k - 1), cs.len());
    }
}

/// A branch line stays straight: when the first parent of commit `i` is in the list and
/// no earlier row names it (neither as its own id nor as a parent), and it is not the
/// commit itself, the parent is drawn in the same column as commit `i`.
pub proof fn lemma_first_parent_keeps_lane(cs: Seq<CommitInfo>, i: int)
    requires
        cs.len() <= usize::MAX,
        0 <= i < cs.len(),
        cs[i].parent_ids@.len() > 0,
        row_of_id(cs, cs[i].parent_ids@[0]@) is Some,
        row_of_id(cs, cs[i].parent_ids@[0]@)->0 != self_row(cs, i),
        untouched_before(cs, row_of_id(cs, cs[i].parent_ids@[0]@)->0 as int, i),
    ensures
        layout_plan(cs)[row_of_id(cs, cs[i].parent_ids@[0]@)->0 as int].column == layout_plan(cs)[i].column,
{
    let n = cs.len() as int;
    let r = row_of_id(cs, cs[i].parent_ids@[0]@)->0;
    lemma_parent_rows_bounds(cs, i);
    assert(parent_rows(cs, i)[0] == Some(r));
    lemma_rows_untouched(cs, r as int, i);
    lemma_rows_invariant(cs, i);
    let st = rows_upto(cs, i).0;
    let key = self_row(cs, i);
    let prows = parent_rows(cs, i);
    lemma_self_row_bounds(cs, i);
    lemma_place(st, key, cs.len());
    let (s1, col) = place(st, key);
    lemma_ensure_color(s1, col, cs.len());
    let s2 = ensure_color(s1, col);
    let ncolor = s2.colors[col as int]->0;
    assert(s2.reserved[r as int] is None);
    assert(parents_upto(s2, col, ncolor, prows, 1).0.reserved[r as int] == Some(col)) by {
        assert(parents_upto(s2, col, ncolor, prows, 0).0 == s2);
    }
    lemma_parents_upto_extends(s2, col, ncolor, prows, 1, prows.len() as int, cs.len());
    lemma_rows_invariant(cs, i + 1);
    assert(rows_upto(cs, i + 1).0.reserved[r as int] == Some(col));
    lemma_rows_extends(cs, i + 1, n);
    lemma_rows_invariant(cs, n);
    assert(rows_upto(cs, n).1[i] == rows_upto(cs, i + 1).1[i]);
    assert(rows_upto(cs, n).0.reserved[self_row(cs, r as int) as int] == Some(rows_upto(cs, n).1[r as int].column));
}


/// The layout depends on the commit list alone: two layouts of the same list
/// place every commit in the same column, with the same color and edges.
pub proof fn lemma_layout_is_determined(a: DagLayout, b: DagLayout, cs: Seq<CommitInfo>)
    requires
        is_layout_of(a, cs),
        is_layout_of(b, cs),
    ensures
        a.total_columns == b.total_columns,
        a.total_rows == b.total_rows,
        a.nodes@.len() == b.nodes@.len(),
        forall|i: int|
            0 <= i < cs.len() ==> {
                &&& (#[trigger] a.nodes@[i]).column == b.nodes@[i].column
                &&& a.nodes@[i].color_index == b.nodes@[i].color_index
                &&& a.nodes@[i].parent_edges@ == b.nodes@[i].parent_edges@
                &&& a.nodes@[i].commit_id@ == b.nodes@[i].commit_id@
            },
{
}

} // verus!
