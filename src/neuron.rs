use vstd::prelude::*;

use crate::swc::SwcRecord;

verus! {

broadcast use vstd::std_specs::hash::group_hash_axioms;

use std::collections::HashMap;

/// Raised when no record of a skeleton declares itself the root.
#[derive(Debug, Clone, Copy, PartialEq, Eq)]
pub struct RootNotFoundError;

impl RootNotFoundError {
    pub fn message(&self) -> (r: &'static str)
        ensures
            r@ == "Root not found"@,
    {
        "Root not found"
    }
}

/// The parent id that marks the root.
pub const NO_PARENT: i32 = -1;

/// One joint of a skeleton, held in the skeleton's arena: `parent` and
/// `children` are positions in that arena.
pub struct Node {
    pub id: i32,
    pub structure: i32,
    pub pid: i32,
    pub parent: Option<usize>,
    pub children: Vec<usize>,
}

impl Node {
    pub fn push_child(&mut self, child: usize)
        ensures
            final(self).children@ == old(self).children@.push(child),
            final(self).id == old(self).id,
            final(self).structure == old(self).structure,
            final(self).pid == old(self).pid,
            final(self).parent == old(self).parent,
    {
        self.children.push(child)
    }

    pub fn parent(&self) -> (r: Option<usize>)
        ensures
            r == self.parent,
    {
        self.parent
    }

    pub fn is_termination(&self) -> (r: bool)
        ensures
            r == (self.children@.len() == 0),
    {
        self.children.len() == 0
    }

    pub fn is_elongation(&self) -> (r: bool)
        ensures
            r == (self.children@.len() == 1),
    {
        self.children.len() == 1
    }

    pub fn is_bifurcation(&self) -> (r: bool)
        ensures
            r == (self.children@.len() > 1),
    {
        self.children.len() > 1
    }
}

/// The position of the last record before position `k` that carries `id`.
pub open spec fn last_with_id(recs: Seq<SwcRecord>, id: i32, k: int) -> Option<usize>
    decreases k,
{
    if k <= 0 {
        None
    } else if recs[k - 1].id == id {
        Some((k - 1) as usize)
    } else {
        last_with_id(recs, id, k - 1)
    }
}

proof fn lemma_last_with_id_before(recs: Seq<SwcRecord>, id: i32, k: int)
    requires
        k <= recs.len() <= usize::MAX,
    ensures
        last_with_id(recs, id, k) matches Some(j) ==> j < k && recs[j as int].id == id,
    decreases k,
{
    if k > 0 {
        lemma_last_with_id_before(recs, id, k - 1);
    }
}

proof fn lemma_first_root_is_root(recs: Seq<SwcRecord>, k: int)
    requires
        k <= recs.len() <= usize::MAX,
    ensures
        first_root(recs, k) matches Some(r) ==> r < k && recs[r as int].pid == NO_PARENT,
    decreases k,
{
    if k > 0 {
        lemma_first_root_is_root(recs, k - 1);
    }
}

/// The parent of the record at position `k`: the last earlier record whose id
/// is its parent id; none for a root, nor for an orphan whose parent id was
/// not seen before it.
pub open spec fn parent_of(recs: Seq<SwcRecord>, k: int) -> Option<usize> {
    if recs[k].pid == NO_PARENT {
        None
    } else {
        last_with_id(recs, recs[k].pid, k)
    }
}

/// Node `nd` holds the fields of the record at position `k` and is linked to
/// that record's parent.
pub open spec fn node_of_record(nd: Node, recs: Seq<SwcRecord>, k: int) -> bool {
    &&& nd.id == recs[k].id
    &&& nd.structure == recs[k].structure
    &&& nd.pid == recs[k].pid
    &&& nd.parent == parent_of(recs, k)
}

/// The first position before `k` whose record has no parent id.
pub open spec fn first_root(recs: Seq<SwcRecord>, k: int) -> Option<usize>
    decreases k,
{
    if k <= 0 {
        None
    } else {
        match first_root(recs, k - 1) {
            Some(r) => Some(r),
            None => if recs[k - 1].pid == NO_PARENT {
                Some((k - 1) as usize)
            } else {
                None
            },
        }
    }
}

/// The children of node `i` are exactly the nodes whose parent it is, in
/// increasing order.
pub open spec fn children_exact(nodes: Seq<Node>, i: int) -> bool {
    let ch = nodes[i].children@;
    &&& forall|a: int, b: int| 0 <= a < b < ch.len() ==> ch[a] < ch[b]
    &&& forall|a: int|
        0 <= a < ch.len() ==> ch[a] < nodes.len() && nodes[ch[a] as int].parent == Some(i as usize)
    &&& forall|k: int|
        0 <= k < nodes.len() && nodes[k].parent == Some(i as usize) ==> ch.contains(k as usize)
}

/// Every parent stands before its child.
pub open spec fn parent_before(nodes: Seq<Node>, i: int) -> bool {
    match nodes[i].parent {
        Some(p) => p < i,
        None => true,
    }
}

/// The arena forms a forest whose node `root` has no parent.
pub open spec fn wf_tree(nodes: Seq<Node>, root: int) -> bool {
    &&& 0 <= root < nodes.len() <= usize::MAX
    &&& nodes[root].parent is None
    &&& forall|i: int| 0 <= i < nodes.len() ==> #[trigger] parent_before(nodes, i)
    &&& forall|i: int| 0 <= i < nodes.len() ==> #[trigger] children_exact(nodes, i)
}

/// Whether node `k` lies in the subtree of node `r`: `r` is reached from
/// `k` by following parents.
pub open spec fn in_subtree(nodes: Seq<Node>, k: int, r: int) -> bool
    decreases k,
{
    if k == r {
        true
    } else if 0 <= k < nodes.len() {
        match nodes[k].parent {
            Some(p) => p < k && in_subtree(nodes, p as int, r),
            None => false,
        }
    } else {
        false
    }
}

/// The nodes of the subtree of `r`.
pub open spec fn subtree_nodes(nodes: Seq<Node>, r: int) -> Set<usize> {
    Set::new(|k: usize| k < nodes.len() && in_subtree(nodes, k as int, r))
}

/// The parent/child links of the subtree of node `i`, depth first: for each
/// child in order, the link to it followed by the links below it.
pub open spec fn subtree_links(nodes: Seq<Node>, i: int) -> Seq<(usize, usize)>
    decreases nodes.len() - i, 1int, 0int,
{
    if 0 <= i < nodes.len() {
        child_links(nodes, i, 0)
    } else {
        seq![]
    }
}

/// The links that `subtree_links` lists from the `j`-th child of `i` on.
pub open spec fn child_links(nodes: Seq<Node>, i: int, j: int) -> Seq<(usize, usize)>
    decreases nodes.len() - i, 0int, nodes[i].children@.len() - j,
{
    if 0 <= i < nodes.len() && 0 <= j < nodes[i].children@.len() && i < nodes[i].children@[j] < nodes.len() {
        let c = nodes[i].children@[j];
        seq![(i as usize, c)] + subtree_links(nodes, c as int) + child_links(nodes, i, j + 1)
    } else {
        seq![]
    }
}

/// The child end of each link.
pub open spec fn link_targets(links: Seq<(usize, usize)>) -> Seq<usize> {
    links.map_values(|e: (usize, usize)| e.1)
}

/// One object of the single-material rendering: a link between a parent and
/// a child, or, for a skeleton without links, its root joint alone.
#[derive(Debug, Clone, Copy, PartialEq, Eq)]
pub enum Piece {
    Link(usize, usize),
    Joint(usize),
}

/// The pieces for a whole skeleton.
pub open spec fn flat_pieces_spec(nodes: Seq<Node>, root: int) -> Seq<Piece> {
    let links = subtree_links(nodes, root);
    if links.len() == 0 {
        seq![Piece::Joint(root as usize)]
    } else {
        links.map_values(|e: (usize, usize)| Piece::Link(e.0, e.1))
    }
}

proof fn lemma_subtree_above(nodes: Seq<Node>, k: int, r: int)
    requires
        in_subtree(nodes, k, r),
    ensures
        k >= r,
    decreases k,
{
    if k != r {
        let p = nodes[k].parent->0;
        lemma_subtree_above(nodes, p as int, r);
    }
}

proof fn lemma_subtree_trans(nodes: Seq<Node>, k: int, a: int, b: int)
    requires
        in_subtree(nodes, k, a),
        in_subtree(nodes, a, b),
    ensures
        in_subtree(nodes, k, b),
    decreases k,
{
    if k != a {
        let p = nodes[k].parent->0;
        lemma_subtree_trans(nodes, p as int, a, b);
        if k == b {
        }
    }
}

proof fn lemma_subtree_comparable(nodes: Seq<Node>, k: int, a: int, b: int)
    requires
        in_subtree(nodes, k, a),
        in_subtree(nodes, k, b),
    ensures
        in_subtree(nodes, a, b) || in_subtree(nodes, b, a),
    decreases k,
{
    if k != a && k != b {
        let p = nodes[k].parent->0;
        lemma_subtree_comparable(nodes, p as int, a, b);
    }
}

/// Below a node, the subtrees of two different children do not meet.
proof fn lemma_sibling_subtrees_disjoint(nodes: Seq<Node>, root: int, i: int, c1: int, c2: int, k: int)
    requires
        wf_tree(nodes, root),
        0 <= i < nodes.len(),
        0 <= c1 < nodes.len(),
        0 <= c2 < nodes.len(),
        c1 != c2,
        nodes[c1].parent == Some(i as usize),
        nodes[c2].parent == Some(i as usize),
        in_subtree(nodes, k, c1),
    ensures
        !in_subtree(nodes, k, c2),
{
    if in_subtree(nodes, k, c2) {
        lemma_subtree_comparable(nodes, k, c1, c2);
        assert(parent_before(nodes, c1));
        assert(parent_before(nodes, c2));
        if in_subtree(nodes, c1, c2) {
            lemma_subtree_above(nodes, i, c2);
        } else {
            lemma_subtree_above(nodes, i, c1);
        }
    }
}

/// A node strictly below `i` lies below one of its children.
proof fn lemma_below_some_child(nodes: Seq<Node>, root: int, i: int, k: int)
    requires
        wf_tree(nodes, root),
        0 <= i < nodes.len(),
        0 <= k < nodes.len(),
        k != i,
        in_subtree(nodes, k, i),
    ensures
        exists|j: int| 0 <= j < nodes[i].children@.len() && in_subtree(nodes, k, #[trigger] nodes[i].children@[j] as int),
    decreases k,
{
    let p = nodes[k].parent->0;
    assert(children_exact(nodes, i));
    if p == i {
        assert(nodes[i].children@.contains(k as usize));
        let j = choose|j: int| 0 <= j < nodes[i].children@.len() && nodes[i].children@[j] == k as usize;
        assert(nodes[i].children@[j] as int == k);
        assert(in_subtree(nodes, k, nodes[i].children@[j] as int));
    } else {
        lemma_below_some_child(nodes, root, i, p as int);
        let j = choose|j: int| 0 <= j < nodes[i].children@.len() && in_subtree(nodes, p as int, #[trigger] nodes[i].children@[j] as int);
        assert(in_subtree(nodes, k, nodes[i].children@[j] as int));
    }
}

proof fn lemma_targets_concat(a: Seq<(usize, usize)>, b: Seq<(usize, usize)>)
    ensures
        link_targets(a + b) == link_targets(a) + link_targets(b),
{
    assert(link_targets(a + b) =~= link_targets(a) + link_targets(b));
}

/// What `child_links` holds: each listed link joins a parent to its child,
/// no node is the child end twice, and the child ends are exactly the nodes
/// below the children from position `j` on.
proof fn lemma_child_links(nodes: Seq<Node>, root: int, i: int, j: int)
    requires
        wf_tree(nodes, root),
        0 <= i < nodes.len(),
        0 <= j <= nodes[i].children@.len(),
    ensures
        link_targets(child_links(nodes, i, j)).no_duplicates(),
        forall|e: int| 0 <= e < child_links(nodes, i, j).len() ==>
            nodes[#[trigger] child_links(nodes, i, j)[e].1 as int].parent == Some(child_links(nodes, i, j)[e].0),
        forall|k: usize| #[trigger] link_targets(child_links(nodes, i, j)).contains(k) <==>
            (k < nodes.len() && exists|m: int| j <= m < nodes[i].children@.len() && in_subtree(nodes, k as int, #[trigger] nodes[i].children@[m] as int)),
    decreases nodes.len() - i, 0int, nodes[i].children@.len() - j,
{
    let ch = nodes[i].children@;
    assert(children_exact(nodes, i));
    if j < ch.len() {
        let c = ch[j];
        assert(nodes[c as int].parent == Some(i as usize));
        assert(parent_before(nodes, c as int));
        assert(i < c < nodes.len());
        lemma_links(nodes, root, c as int);
        lemma_child_links(nodes, root, i, j + 1);
        let head = seq![(i as usize, c)];
        let sub = subtree_links(nodes, c as int);
        let rest = child_links(nodes, i, j + 1);
        assert(child_links(nodes, i, j) == head + sub + rest);
        lemma_targets_concat(head, sub);
        lemma_targets_concat(head + sub, rest);
        let th = link_targets(head);
        let ts = link_targets(sub);
        let tr = link_targets(rest);
        assert(th =~= seq![c]);
        assert forall|k: usize| #[trigger] (th + ts).contains(k) <==> (k < nodes.len() && in_subtree(nodes, k as int, c as int)) by {
            if (th + ts).contains(k) {
                let w = choose|w: int| 0 <= w < (th + ts).len() && (th + ts)[w] == k;
                if w >= 1 {
                    assert(ts[w - 1] == k);
                    assert(ts.contains(k));
                }
            }
            if k < nodes.len() && in_subtree(nodes, k as int, c as int) {
                if k == c {
                    assert((th + ts)[0] == k);
                } else {
                    assert(ts.contains(k));
                    let w = choose|w: int| 0 <= w < ts.len() && ts[w] == k;
                    assert((th + ts)[w + 1] == k);
                }
            }
        }
        assert((th + ts).no_duplicates()) by {
            assert forall|x: int, y: int| 0 <= x < th.len() && 0 <= y < ts.len() implies th[x] != ts[y] by {
                assert(ts.contains(ts[y]));
            }
            assert(th.no_duplicates());
            vstd::seq_lib::lemma_no_dup_in_concat(th, ts);
        }
        assert forall|x: int, y: int| 0 <= x < (th + ts).len() && 0 <= y < tr.len() implies (th + ts)[x] != tr[y] by {
            let k = tr[y];
            assert(tr.contains(k));
            let m = choose|m: int| j + 1 <= m < ch.len() && in_subtree(nodes, k as int, #[trigger] ch[m] as int);
            assert((th + ts).contains((th + ts)[x]));
            if (th + ts)[x] == k {
                assert(ch[j] < ch[m]);
                assert(nodes[ch[m] as int].parent == Some(i as usize));
                lemma_sibling_subtrees_disjoint(nodes, root, i, c as int, ch[m] as int, k as int);
            }
        }
        vstd::seq_lib::lemma_no_dup_in_concat(th + ts, tr);
        let all = child_links(nodes, i, j);
        assert forall|e: int| 0 <= e < all.len() implies nodes[#[trigger] all[e].1 as int].parent == Some(all[e].0) by {
            if e == 0 {
            } else if e < 1 + sub.len() {
                assert(all[e] == sub[e - 1]);
            } else {
                assert(all[e] == rest[e - 1 - sub.len()]);
            }
        }
        assert forall|k: usize| #[trigger] link_targets(all).contains(k) <==>
            (k < nodes.len() && exists|m: int| j <= m < ch.len() && in_subtree(nodes, k as int, #[trigger] ch[m] as int)) by {
            let t = link_targets(all);
            assert(t == (th + ts) + tr);
            if t.contains(k) {
                let w = choose|w: int| 0 <= w < t.len() && t[w] == k;
                if w < (th + ts).len() {
                    assert((th + ts).contains(k));
                    assert(in_subtree(nodes, k as int, ch[j] as int));
                } else {
                    assert(tr[w - (th + ts).len()] == k);
                    assert(tr.contains(k));
                }
            }
            if k < nodes.len() && exists|m: int| j <= m < ch.len() && in_subtree(nodes, k as int, #[trigger] ch[m] as int) {
                let m = choose|m: int| j <= m < ch.len() && in_subtree(nodes, k as int, #[trigger] ch[m] as int);
                if m == j {
                    assert((th + ts).contains(k));
                    let w = choose|w: int| 0 <= w < (th + ts).len() && (th + ts)[w] == k;
                    assert(t[w] == k);
                } else {
                    assert(tr.contains(k));
                    let w = choose|w: int| 0 <= w < tr.len() && tr[w] == k;
                    assert(t[w + (th + ts).len()] == k);
                }
            }
        }
    } else {
        assert(child_links(nodes, i, j) =~= seq![]);
        assert(link_targets(child_links(nodes, i, j)) =~= seq![]);
    }
}

/// What `subtree_links` holds: each listed link joins a parent to its child,
/// and every node strictly below `i` is the child end of exactly one link.
proof fn lemma_links(nodes: Seq<Node>, root: int, i: int)
    requires
        wf_tree(nodes, root),
        0 <= i < nodes.len(),
    ensures
        link_targets(subtree_links(nodes, i)).no_duplicates(),
        forall|e: int| 0 <= e < subtree_links(nodes, i).len() ==>
            nodes[#[trigger] subtree_links(nodes, i)[e].1 as int].parent == Some(subtree_links(nodes, i)[e].0),
        forall|k: usize| #[trigger] link_targets(subtree_links(nodes, i)).contains(k) <==>
            (k < nodes.len() && k != i && in_subtree(nodes, k as int, i)),
    decreases nodes.len() - i, 1int, 0int,
{
    lemma_child_links(nodes, root, i, 0);
    let ch = nodes[i].children@;
    assert(children_exact(nodes, i));
    assert forall|k: usize| #[trigger] link_targets(subtree_links(nodes, i)).contains(k) <==>
        (k < nodes.len() && k != i && in_subtree(nodes, k as int, i)) by {
        if k < nodes.len() && exists|m: int| 0 <= m < ch.len() && in_subtree(nodes, k as int, #[trigger] ch[m] as int) {
            let m = choose|m: int| 0 <= m < ch.len() && in_subtree(nodes, k as int, #[trigger] ch[m] as int);
            assert(nodes[ch[m] as int].parent == Some(i as usize));
            assert(parent_before(nodes, ch[m] as int));
            assert(in_subtree(nodes, i, i));
            assert(in_subtree(nodes, ch[m] as int, i));
            lemma_subtree_trans(nodes, k as int, ch[m] as int, i);
            lemma_subtree_above(nodes, k as int, ch[m] as int);
        }
        if k < nodes.len() && k != i && in_subtree(nodes, k as int, i) {
            lemma_below_some_child(nodes, root, i, k as int);
        }
    }
}

/// Whether nodes `a` and `b` are joined by an edge, in either direction.
pub open spec fn adjacent(nodes: Seq<Node>, a: int, b: int) -> bool {
    nodes[a].parent == Some(b as usize) || nodes[b].parent == Some(a as usize)
}

/// The nodes a walk has reached: its start and the far end of each step.
pub open spec fn reached(start: int, steps: Seq<(usize, usize)>, x: int) -> bool {
    x == start || link_targets(steps).contains(x as usize)
}

/// A walk from `start`: each step crosses an edge from a node reached before
/// it to a node reached for the first time.
pub open spec fn is_walk(nodes: Seq<Node>, start: int, steps: Seq<(usize, usize)>) -> bool {
    &&& link_targets(steps).no_duplicates()
    &&& !link_targets(steps).contains(start as usize)
    &&& forall|e: int| 0 <= e < steps.len() ==> {
        &&& (#[trigger] steps[e]).0 < nodes.len()
        &&& steps[e].1 < nodes.len()
        &&& adjacent(nodes, steps[e].0 as int, steps[e].1 as int)
        &&& (steps[e].0 == start || exists|f: int| 0 <= f < e && steps[f].1 == steps[e].0)
    }
}

/// Every neighbour of `x` is marked.
pub open spec fn neighbours_marked(nodes: Seq<Node>, marks: Seq<bool>, x: int) -> bool {
    &&& (nodes[x].parent matches Some(p) ==> marks[p as int])
    &&& forall|j: int| 0 <= j < nodes[x].children@.len() ==> marks[#[trigger] nodes[x].children@[j] as int]
}

/// The number of unmarked entries.
pub open spec fn unmarked(marks: Seq<bool>) -> nat
    decreases marks.len(),
{
    if marks.len() == 0 {
        0
    } else {
        unmarked(marks.drop_last()) + if marks.last() {
            0nat
        } else {
            1nat
        }
    }
}

proof fn lemma_unmarked_mark(marks: Seq<bool>, i: int)
    requires
        0 <= i < marks.len(),
        !marks[i],
    ensures
        unmarked(marks.update(i, true)) + 1 == unmarked(marks),
    decreases marks.len(),
{
    let m = marks.update(i, true);
    if i < marks.len() - 1 {
        assert(m.drop_last() =~= marks.drop_last().update(i, true));
        lemma_unmarked_mark(marks.drop_last(), i);
    } else {
        assert(m.drop_last() =~= marks.drop_last());
    }
}

proof fn lemma_unmarked_monotone(a: Seq<bool>, b: Seq<bool>)
    requires
        a.len() == b.len(),
        forall|i: int| 0 <= i < a.len() && a[i] ==> b[i],
    ensures
        unmarked(b) <= unmarked(a),
    decreases a.len(),
{
    if a.len() > 0 {
        lemma_unmarked_monotone(a.drop_last(), b.drop_last());
    }
}

/// The state that a walk keeps: the marks are exactly the reached nodes.
pub open spec fn walk_state(nodes: Seq<Node>, start: int, marks: Seq<bool>, steps: Seq<(usize, usize)>) -> bool {
    &&& marks.len() == nodes.len()
    &&& is_walk(nodes, start, steps)
    &&& forall|x: int| 0 <= x < marks.len() ==> (#[trigger] marks[x] <==> reached(start, steps, x))
}

proof fn lemma_walk_step(nodes: Seq<Node>, start: int, v: int, w: int, before_marks: Seq<bool>, before_steps: Seq<(usize, usize)>)
    requires
        nodes.len() <= usize::MAX,
        0 <= start < nodes.len(),
        0 <= v < nodes.len(),
        0 <= w < nodes.len(),
        adjacent(nodes, v, w),
        before_marks[v],
        !before_marks[w],
        reached(start, before_steps, v),
        walk_state(nodes, start, before_marks, before_steps),
    ensures
        walk_state(nodes, start, before_marks.update(w, true), before_steps.push((v as usize, w as usize))),
        unmarked(before_marks.update(w, true)) + 1 == unmarked(before_marks),
        reached(start, before_steps.push((v as usize, w as usize)), w),
{
    let marks = before_marks.update(w, true);
    let steps = before_steps.push((v as usize, w as usize));
    lemma_unmarked_mark(before_marks, w);
    let t0 = link_targets(before_steps);
    let t1 = link_targets(steps);
    assert(t1 =~= t0.push(w as usize));
    assert(!t0.contains(w as usize)) by {
        assert(!before_marks[w]);
    }
    assert(t1.no_duplicates()) by {
        assert forall|a: int, b: int| 0 <= a < b < t1.len() implies t1[a] != t1[b] by {
            if b == t1.len() - 1 {
                assert(t0.contains(t0[a]));
            }
        }
    }
    assert(!t1.contains(start as usize)) by {
        assert(before_marks[start]);
        if t1.contains(start as usize) {
            let z = choose|z: int| 0 <= z < t1.len() && t1[z] == start as usize;
            if z < t0.len() {
                assert(t0.contains(start as usize));
            }
        }
    }
    assert forall|x: int| 0 <= x < marks.len() implies (#[trigger] marks[x] <==> reached(start, steps, x)) by {
        if t0.contains(x as usize) {
            let z = choose|z: int| 0 <= z < t0.len() && t0[z] == x as usize;
            assert(t1[z] == x as usize);
        }
        if t1.contains(x as usize) && x != w {
            let z = choose|z: int| 0 <= z < t1.len() && t1[z] == x as usize;
            assert(t0[z] == x as usize);
        }
        if x == w {
            assert(t1[t1.len() - 1] == w as usize);
        }
    }
    assert forall|e: int| 0 <= e < steps.len() implies {
        &&& (#[trigger] steps[e]).0 < nodes.len()
        &&& steps[e].1 < nodes.len()
        &&& adjacent(nodes, steps[e].0 as int, steps[e].1 as int)
        &&& (steps[e].0 == start || exists|f: int| 0 <= f < e && steps[f].1 == steps[e].0)
    } by {
        if e < before_steps.len() {
            assert(steps[e] == before_steps[e]);
            if steps[e].0 != start {
                let f = choose|f: int| 0 <= f < e && before_steps[f].1 == before_steps[e].0;
                assert(steps[f] == before_steps[f]);
            }
        } else if v != start {
            assert(t0.contains(v as usize));
            let f = choose|f: int| 0 <= f < t0.len() && t0[f] == v as usize;
            assert(steps[f] == before_steps[f]);
        }
    }
    assert(t1[t1.len() - 1] == w as usize);
}

/// The walk state `(marks, steps)` extends `(marks0, steps0)`: no mark is
/// lost and the earlier steps stay in front.
pub open spec fn grown(marks0: Seq<bool>, steps0: Seq<(usize, usize)>, marks: Seq<bool>, steps: Seq<(usize, usize)>) -> bool {
    &&& steps.len() >= steps0.len()
    &&& steps.subrange(0, steps0.len() as int) == steps0
    &&& forall|x: int| 0 <= x < marks0.len() && marks0[x] ==> #[trigger] marks[x]
}

proof fn lemma_grown_trans(
    m0: Seq<bool>, s0: Seq<(usize, usize)>,
    m1: Seq<bool>, s1: Seq<(usize, usize)>,
    m2: Seq<bool>, s2: Seq<(usize, usize)>,
)
    requires
        grown(m0, s0, m1, s1),
        grown(m1, s1, m2, s2),
        m0.len() == m1.len(),
    ensures
        grown(m0, s0, m2, s2),
{
    assert(s2.subrange(0, s0.len() as int) =~= s1.subrange(0, s0.len() as int));
    assert forall|x: int| 0 <= x < m0.len() && m0[x] implies #[trigger] m2[x] by {
        assert(m1[x]);
    }
}

proof fn lemma_reached_grown(start: int, s0: Seq<(usize, usize)>, s1: Seq<(usize, usize)>, x: int)
    requires
        reached(start, s0, x),
        s1.len() >= s0.len(),
        s1.subrange(0, s0.len() as int) == s0,
    ensures
        reached(start, s1, x),
{
    if x != start {
        let t0 = link_targets(s0);
        let z = choose|z: int| 0 <= z < t0.len() && t0[z] == x as usize;
        assert(s1[z] == s0[z]);
        assert(link_targets(s1)[z] == x as usize);
    }
}

proof fn lemma_neighbours_marked_grow(nodes: Seq<Node>, root: int, a: Seq<bool>, b: Seq<bool>, y: int)
    requires
        wf_tree(nodes, root),
        0 <= y < nodes.len(),
        a.len() == nodes.len(),
        neighbours_marked(nodes, a, y),
        forall|x: int| 0 <= x < a.len() && a[x] ==> #[trigger] b[x],
    ensures
        neighbours_marked(nodes, b, y),
{
    assert(children_exact(nodes, y));
    assert(parent_before(nodes, y));
    assert forall|j: int| 0 <= j < nodes[y].children@.len() implies b[#[trigger] nodes[y].children@[j] as int] by {
        assert(a[nodes[y].children@[j] as int]);
    }
}

/// The nodes of the root's tree in depth-first order, the root first.
pub open spec fn preorder(nodes: Seq<Node>, root: int) -> Seq<usize> {
    seq![root as usize] + link_targets(subtree_links(nodes, root))
}

/// `k` is the first node of `order` that carries `id`.
pub open spec fn first_in_order_with_id(nodes: Seq<Node>, order: Seq<usize>, id: i32, k: usize) -> bool {
    exists|m: int|
        0 <= m < order.len() && order[m] == k && nodes[k as int].id == id && forall|m2: int|
            0 <= m2 < m ==> nodes[#[trigger] order[m2] as int].id != id
}

/// The steps from position `from` on each leave `v` or a node reached by an
/// earlier one of them, and each reach a node that `marks0` left unmarked:
/// they extend the walk from `v` through unmarked nodes only.
pub open spec fn fresh_from(v: int, marks0: Seq<bool>, steps: Seq<(usize, usize)>, from: int) -> bool {
    forall|e: int| from <= e < steps.len() ==> {
        &&& ((#[trigger] steps[e]).0 == v || exists|f: int| from <= f < e && steps[f].1 == steps[e].0)
        &&& !marks0[steps[e].1 as int]
    }
}

proof fn lemma_fresh_chain(
    v: int,
    entry_marks: Seq<bool>,
    entry_len: int,
    before_marks: Seq<bool>,
    before_steps: Seq<(usize, usize)>,
    steps: Seq<(usize, usize)>,
)
    requires
        0 <= entry_len <= before_steps.len() <= steps.len(),
        steps.subrange(0, before_steps.len() as int) == before_steps,
        entry_marks.len() == before_marks.len(),
        forall|x: int| 0 <= x < entry_marks.len() && entry_marks[x] ==> #[trigger] before_marks[x],
        forall|e: int| 0 <= e < steps.len() ==> (#[trigger] steps[e]).1 < entry_marks.len(),
        fresh_from(v, entry_marks, before_steps, entry_len),
        fresh_from(v, before_marks, steps, before_steps.len() as int),
    ensures
        fresh_from(v, entry_marks, steps, entry_len),
{
    assert forall|e: int| entry_len <= e < steps.len() implies {
        &&& ((#[trigger] steps[e]).0 == v || exists|f: int| entry_len <= f < e && steps[f].1 == steps[e].0)
        &&& !entry_marks[steps[e].1 as int]
    } by {
        if e < before_steps.len() {
            assert(steps[e] == before_steps[e]);
            if steps[e].0 != v {
                let f = choose|f: int| entry_len <= f < e && before_steps[f].1 == before_steps[e].0;
                assert(steps[f] == before_steps[f]);
            }
        } else {
            assert(!before_marks[steps[e].1 as int]);
        }
    }
}

/// The nodes a walk has reached, its start included.
pub open spec fn reached_set(start: int, steps: Seq<(usize, usize)>) -> Set<usize> {
    link_targets(steps).to_set().insert(start as usize)
}

/// No node of `s` has a neighbour outside it.
pub open spec fn closed_under_edges(nodes: Seq<Node>, s: Set<usize>) -> bool {
    forall|x: usize, y: usize|
        x < nodes.len() && y < nodes.len() && #[trigger] s.contains(x) && #[trigger] adjacent(nodes, x as int, y as int)
            ==> s.contains(y)
}

/// No two nodes share an id.
pub open spec fn ids_distinct(nodes: Seq<Node>) -> bool {
    forall|a: int, b: int| 0 <= a < nodes.len() && 0 <= b < nodes.len() && a != b ==> nodes[a].id != nodes[b].id
}

proof fn lemma_walk_within(nodes: Seq<Node>, start: int, steps: Seq<(usize, usize)>, s: Set<usize>, e: int)
    requires
        is_walk(nodes, start, steps),
        s.contains(start as usize),
        closed_under_edges(nodes, s),
        0 <= e < steps.len(),
    ensures
        s.contains(steps[e].1),
    decreases e,
{
    let x = steps[e].0;
    if x as int != start {
        let f = choose|f: int| 0 <= f < e && steps[f].1 == steps[e].0;
        lemma_walk_within(nodes, start, steps, s, f);
    }
    assert(adjacent(nodes, x as int, steps[e].1 as int));
}

/// A skeleton: every record that was read, linked to its parent where the
/// parent could be resolved, and the root.
pub struct SWC {
    nodes: Vec<Node>,
    root: usize,
}

impl SWC {
    /// The arena is a well-formed forest with a root.
    pub closed spec fn wf(&self) -> bool {
        wf_tree(self.nodes@, self.root as int)
    }

    pub closed spec fn nodes_view(&self) -> Seq<Node> {
        self.nodes@
    }

    pub closed spec fn root_view(&self) -> int {
        self.root as int
    }

    /// Links the records into a skeleton. The root is the first record whose
    /// parent id is the root marker. Ids are not required to be distinct: a
    /// parent id names the last earlier record that carries it.
    pub fn from_records(recs: &Vec<SwcRecord>) -> (r: Result<SWC, RootNotFoundError>)
        ensures
            r is Err <==> first_root(recs@, recs@.len() as int) is None,
            r matches Ok(t) ==> {
                &&& t.wf()
                &&& t.nodes_view().len() == recs@.len()
                &&& Some(t.root_view() as usize) == first_root(recs@, recs@.len() as int)
                &&& forall|k: int| 0 <= k < recs@.len() ==> #[trigger] node_of_record(t.nodes_view()[k], recs@, k)
            },
    {
        let n = recs.len();
        let mut nodes: Vec<Node> = Vec::new();
        let mut index: HashMap<i32, usize> = HashMap::new();
        let mut root: Option<usize> = None;
        let mut k: usize = 0;
        while k < n
            invariant
                n == recs@.len(),
                k <= n,
                nodes@.len() == k,
                root == first_root(recs@, k as int),
                forall|j: int| 0 <= j < k ==> #[trigger] node_of_record(nodes@[j], recs@, j),
                forall|j: int| 0 <= j < k ==> #[trigger] parent_before(nodes@, j),
                forall|j: int| 0 <= j < k ==> #[trigger] children_exact(nodes@, j),
                forall|id: i32| #[trigger] index@.contains_key(id) <==> last_with_id(recs@, id, k as int) is Some,
                forall|id: i32| #[trigger] index@.contains_key(id) ==> Some(index@[id]) == last_with_id(recs@, id, k as int),
            decreases n - k,
        {
            let rec = &recs[k];
            let parent: Option<usize> = if rec.pid == NO_PARENT {
                if root.is_none() {
                    root = Some(k);
                }
                None
            } else {
                match index.get(&rec.pid) {
                    Some(j) => Some(*j),
                    None => None,
                }
            };
            proof {
                lemma_last_with_id_before(recs@, rec.pid, k as int);
                lemma_first_root_is_root(recs@, k as int + 1);
            }
            assert(parent matches Some(p) ==> p < k);
            let ghost old_nodes = nodes@;
            nodes.push(Node { id: rec.id, structure: rec.structure, pid: rec.pid, parent, children: Vec::new() });
            assert forall|m: int| 0 <= m < k implies old_nodes[m].parent != Some(k) by {
                assert(parent_before(old_nodes, m));
            }
            assert forall|j: int| 0 <= j < k implies #[trigger] parent_before(nodes@, j) by {
                assert(nodes@[j] == old_nodes[j]);
                assert(parent_before(old_nodes, j));
            }
            assert(parent_before(nodes@, k as int));
            match parent {
                Some(p) => {
                    let ghost before = nodes@;
                    nodes[p].children.push(k);
                    assert(nodes@[p as int].parent == before[p as int].parent);
                    assert(nodes@[p as int].id == before[p as int].id);
                    assert(nodes@[p as int].structure == before[p as int].structure);
                    assert(nodes@[p as int].pid == before[p as int].pid);
                    assert forall|j: int| 0 <= j <= k && j != p implies nodes@[j] == before[j] by {}
                    assert forall|j: int| 0 <= j <= k implies #[trigger] parent_before(nodes@, j) by {
                        assert(parent_before(before, j));
                    }
                    assert forall|j: int| 0 <= j <= k implies #[trigger] children_exact(nodes@, j) by {
                        if j == k {
                            assert forall|m: int| 0 <= m < nodes@.len() implies nodes@[m].parent != Some(k) by {
                                if m < k {
                                    assert(old_nodes[m].parent != Some(k));
                                }
                            }
                        } else if j != p {
                            assert(children_exact(old_nodes, j));
                            assert(nodes@[j] == old_nodes[j]);
                            assert forall|m: int| 0 <= m < nodes@.len() && nodes@[m].parent == Some(j as usize)
                                implies nodes@[j].children@.contains(m as usize) by {
                                assert(m < k);
                                assert(nodes@[m].parent == old_nodes[m].parent);
                            }
                        } else {
                            assert(children_exact(old_nodes, j));
                            assert(before[j] == old_nodes[j]);
                            let ch = nodes@[j].children@;
                            assert(ch == old_nodes[j].children@.push(k));
                            assert forall|m: int| 0 <= m < nodes@.len() && nodes@[m].parent == Some(j as usize)
                                implies ch.contains(m as usize) by {
                                if m == k {
                                    assert(ch[ch.len() - 1] == k);
                                } else {
                                    assert(nodes@[m].parent == old_nodes[m].parent);
                                    let w = choose|w: int| 0 <= w < old_nodes[j].children@.len() && old_nodes[j].children@[w] == m;
                                    assert(ch[w] == m);
                                }
                            }
                            assert forall|a: int| 0 <= a < ch.len() implies ch[a] < nodes@.len() && nodes@[ch[a] as int].parent == Some(j as usize) by {
                                if a < ch.len() - 1 {
                                    assert(ch[a] == old_nodes[j].children@[a]);
                                    assert(nodes@[ch[a] as int].parent == old_nodes[ch[a] as int].parent);
                                }
                            }
                        }
                    }
                },
                None => {
                    assert forall|j: int| 0 <= j <= k implies #[trigger] children_exact(nodes@, j) by {
                        if j == k {
                            assert forall|m: int| 0 <= m < nodes@.len() implies nodes@[m].parent != Some(k) by {
                                if m < k {
                                    assert(old_nodes[m].parent != Some(k));
                                }
                            }
                        } else {
                            assert(children_exact(old_nodes, j));
                            assert(nodes@[j] == old_nodes[j]);
                            assert forall|m: int| 0 <= m < nodes@.len() && nodes@[m].parent == Some(j as usize)
                                implies nodes@[j].children@.contains(m as usize) by {
                                assert(m < k);
                                assert(nodes@[m] == old_nodes[m]);
                            }
                        }
                    }
                },
            }
            assert(nodes@[k as int].parent == parent_of(recs@, k as int));
            assert forall|j: int| 0 <= j <= k implies #[trigger] node_of_record(nodes@[j], recs@, j) by {
                if j < k {
                    assert(node_of_record(old_nodes[j], recs@, j));
                }
            }
            index.insert(rec.id, k);
            k = k + 1;
        }
        match root {
            Some(r) => {
                proof {
                    lemma_first_root_is_root(recs@, n as int);
                }
                assert(node_of_record(nodes@[r as int], recs@, r as int));
                assert(nodes@[r as int].parent is None);
                let t = SWC { nodes, root: r };
                assert(wf_tree(t.nodes@, t.root as int));
                assert forall|k: int| 0 <= k < recs@.len() implies #[trigger] node_of_record(t.nodes_view()[k], recs@, k) by {
                    assert(t.nodes_view()[k] == nodes@[k]);
                    assert(node_of_record(nodes@[k], recs@, k));
                }
                Ok(t)
            },
            None => Err(RootNotFoundError),
        }
    }

    /// A skeleton's arena is a forest: parents come before their children,
    /// and each node's children are exactly the nodes that name it as
    /// parent, in increasing order.
    pub proof fn lemma_wf_tree(self)
        requires
            self.wf(),
        ensures
            wf_tree(self.nodes_view(), self.root_view()),
    {
    }

    pub fn root(&self) -> (r: usize)
        ensures
            r == self.root_view(),
    {
        self.root
    }

    /// The number of nodes read, linked to the root or not.
    pub fn count(&self) -> (r: usize)
        ensures
            r == self.nodes_view().len(),
    {
        self.nodes.len()
    }

    pub fn get(&self, index: usize) -> (r: &Node)
        requires
            index < self.nodes_view().len(),
        ensures
            *r == self.nodes_view()[index as int],
    {
        &self.nodes[index]
    }

    fn collect_links(&self, i: usize, out: &mut Vec<(usize, usize)>)
        requires
            self.wf(),
            i < self.nodes_view().len(),
        ensures
            final(out)@ == old(out)@ + subtree_links(self.nodes_view(), i as int),
        decreases self.nodes_view().len() - i, 1int, 0int,
    {
        let ghost nodes = self.nodes_view();
        let ghost start = out@;
        let n = self.nodes.len();
        let children = &self.nodes[i].children;
        assert(children_exact(nodes, i as int));
        assert(parent_before(nodes, i as int));
        let mut j: usize = 0;
        while j < children.len()
            invariant
                self.wf(),
                nodes == self.nodes_view(),
                n == nodes.len(),
                i < n,
                children@ == nodes[i as int].children@,
                children_exact(nodes, i as int),
                j <= children@.len(),
                start + subtree_links(nodes, i as int) == out@ + child_links(nodes, i as int, j as int),
            decreases children@.len() - j,
        {
            let c = children[j];
            assert(nodes[c as int].parent == Some(i));
            assert(parent_before(nodes, c as int));
            let ghost before = out@;
            out.push((i, c));
            self.collect_links(c, out);
            assert(before + child_links(nodes, i as int, j as int) == out@ + child_links(nodes, i as int, j + 1)) by {
                assert(child_links(nodes, i as int, j as int) == seq![(i, c)] + subtree_links(nodes, c as int)
                    + child_links(nodes, i as int, j + 1));
                assert(out@ == before.push((i, c)) + subtree_links(nodes, c as int));
                vstd::seq_lib::lemma_concat_associative(before, seq![(i, c)], subtree_links(nodes, c as int));
                assert(before.push((i, c)) =~= before + seq![(i, c)]);
                assert(before + (seq![(i, c)] + subtree_links(nodes, c as int) + child_links(nodes, i as int, j + 1))
                    =~= before.push((i, c)) + subtree_links(nodes, c as int) + child_links(nodes, i as int, j + 1));
            }
            j = j + 1;
        }
        assert(child_links(nodes, i as int, j as int) =~= seq![]);
        assert(out@ =~= start + subtree_links(nodes, i as int));
    }

    /// The objects of a rendering with one material for the whole skeleton:
    /// one link for each parent/child edge under the root, depth first, or the
    /// root joint alone where there is no edge.
    pub fn flat_pieces(&self) -> (r: Vec<Piece>)
        requires
            self.wf(),
        ensures
            r@ == flat_pieces_spec(self.nodes_view(), self.root_view()),
    {
        let mut links: Vec<(usize, usize)> = Vec::new();
        self.collect_links(self.root, &mut links);
        assert(links@ =~= subtree_links(self.nodes_view(), self.root_view()));
        let mut out: Vec<Piece> = Vec::new();
        if links.len() == 0 {
            out.push(Piece::Joint(self.root));
            assert(out@ =~= flat_pieces_spec(self.nodes_view(), self.root_view()));
            return out;
        }
        let mut j: usize = 0;
        while j < links.len()
            invariant
                j <= links@.len(),
                out@.len() == j,
                forall|a: int| 0 <= a < j ==> #[trigger] out@[a] == Piece::Link(links@[a].0, links@[a].1),
            decreases links@.len() - j,
        {
            let (a, b) = links[j];
            out.push(Piece::Link(a, b));
            j = j + 1;
        }
        assert(out@ =~= flat_pieces_spec(self.nodes_view(), self.root_view()));
        out
    }

    /// The single-material objects are one per parent/child edge of the
    /// root's tree: on a tree of N nodes, N - 1 links, each joining a node to
    /// its parent, every linked node but the root the child end of exactly one.
    pub proof fn lemma_flat_one_link_per_node(self)
        requires
            self.wf(),
        ensures
            ({
                let nodes = self.nodes_view();
                let root = self.root_view();
                let pieces = flat_pieces_spec(nodes, root);
                &&& subtree_nodes(nodes, root).finite()
                &&& subtree_nodes(nodes, root).len() > 1 ==> pieces.len() + 1 == subtree_nodes(nodes, root).len()
                &&& subtree_nodes(nodes, root).len() == 1 ==> pieces == seq![Piece::Joint(root as usize)]
                &&& forall|e: int| 0 <= e < pieces.len() && pieces[e] is Link ==>
                    nodes[(#[trigger] pieces[e])->Link_1 as int].parent == Some(pieces[e]->Link_0)
                &&& forall|k: usize| k != root && #[trigger] subtree_nodes(nodes, root).contains(k) ==>
                    exists|e: int| 0 <= e < pieces.len() && pieces[e] == Piece::Link(nodes[k as int].parent->0, k)
            }),
    {
        let nodes = self.nodes_view();
        let root = self.root_view();
        let links = subtree_links(nodes, root);
        let targets = link_targets(links);
        let pieces = flat_pieces_spec(nodes, root);
        lemma_links(nodes, root, root);
        assert(subtree_nodes(nodes, root) =~= targets.to_set().insert(root as usize)) by {
            assert(in_subtree(nodes, root, root));
        }
        assert(!targets.to_set().contains(root as usize));
        targets.unique_seq_to_set();
        assert(targets.to_set().len() == links.len());
        if links.len() == 0 {
            assert(targets.to_set() =~= Set::empty());
        }
        assert forall|e: int| 0 <= e < pieces.len() && pieces[e] is Link implies
            nodes[(#[trigger] pieces[e])->Link_1 as int].parent == Some(pieces[e]->Link_0) by {
            assert(pieces[e] == Piece::Link(links[e].0, links[e].1));
        }
        assert forall|k: usize| k != root && #[trigger] subtree_nodes(nodes, root).contains(k) implies
            exists|e: int| 0 <= e < pieces.len() && pieces[e] == Piece::Link(nodes[k as int].parent->0, k) by {
            assert(targets.contains(k));
            let e = choose|e: int| 0 <= e < targets.len() && targets[e] == k;
            assert(pieces[e] == Piece::Link(links[e].0, links[e].1));
        }
    }

    /// A node that is not linked into the root's tree, such as an orphan whose
    /// parent id was never seen, appears in no single-material object.
    pub proof fn lemma_flat_skips_unlinked(self, k: usize)
        requires
            self.wf(),
            k < self.nodes_view().len(),
            !in_subtree(self.nodes_view(), k as int, self.root_view()),
        ensures
            forall|e: int| 0 <= e < flat_pieces_spec(self.nodes_view(), self.root_view()).len() ==>
                match #[trigger] flat_pieces_spec(self.nodes_view(), self.root_view())[e] {
                    Piece::Link(a, b) => a != k && b != k,
                    Piece::Joint(j) => j != k,
                },
    {
        let nodes = self.nodes_view();
        let root = self.root_view();
        let links = subtree_links(nodes, root);
        let targets = link_targets(links);
        let pieces = flat_pieces_spec(nodes, root);
        lemma_links(nodes, root, root);
        assert forall|e: int| 0 <= e < pieces.len() implies
            match #[trigger] pieces[e] {
                Piece::Link(a, b) => a != k && b != k,
                Piece::Joint(j) => j != k,
            } by {
            if links.len() > 0 {
                let (a, b) = links[e];
                assert(targets[e] == b);
                assert(targets.contains(b));
                assert(nodes[b as int].parent == Some(a));
                assert(in_subtree(nodes, b as int, root));
                assert(in_subtree(nodes, a as int, root));
            }
        }
    }

    /// Crosses the edge from `v` to `w` if `w` is not reached yet, and walks
    /// on from `w`.
    fn visit(&self, start: Ghost<int>, v: usize, w: usize, marks: &mut Vec<bool>, steps: &mut Vec<(usize, usize)>)
        requires
            self.wf(),
            0 <= start@ < self.nodes_view().len(),
            v < self.nodes_view().len(),
            w < self.nodes_view().len(),
            adjacent(self.nodes_view(), v as int, w as int),
            old(marks)@[v as int],
            reached(start@, old(steps)@, v as int),
            walk_state(self.nodes_view(), start@, old(marks)@, old(steps)@),
        ensures
            walk_state(self.nodes_view(), start@, final(marks)@, final(steps)@),
            final(marks)@[w as int],
            grown(old(marks)@, old(steps)@, final(marks)@, final(steps)@),
            forall|e: int| old(steps)@.len() <= e < final(steps)@.len() ==>
                neighbours_marked(self.nodes_view(), final(marks)@, #[trigger] final(steps)@[e].1 as int),
            fresh_from(v as int, old(marks)@, final(steps)@, old(steps)@.len() as int),
        decreases unmarked(old(marks)@), 0int,
    {
        if !marks[w] {
            let ghost before_marks = marks@;
            let ghost before_steps = steps@;
            marks.set(w, true);
            steps.push((v, w));
            proof {
                lemma_walk_step(self.nodes_view(), start@, v as int, w as int, before_marks, before_steps);
            }
            let ghost mid_marks = marks@;
            let ghost mid_steps = steps@;
            self.walk_from(start, w, marks, steps);
            proof {
                assert(steps@.subrange(0, before_steps.len() as int) =~= before_steps) by {
                    assert(steps@.subrange(0, mid_steps.len() as int) == mid_steps);
                }
                assert forall|x: int| 0 <= x < before_marks.len() && before_marks[x] implies #[trigger] marks@[x] by {
                    assert(mid_marks[x]);
                }
                assert(mid_steps[before_steps.len() as int].1 == w);
                assert(steps@[before_steps.len() as int] == mid_steps[before_steps.len() as int]);
                let b = before_steps.len() as int;
                assert forall|e: int| b <= e < steps@.len() implies {
                    &&& ((#[trigger] steps@[e]).0 == v || exists|f: int| b <= f < e && steps@[f].1 == steps@[e].0)
                    &&& !before_marks[steps@[e].1 as int]
                } by {
                    if e > b {
                        assert(steps@[e].1 < before_marks.len());
                        assert(!mid_marks[steps@[e].1 as int]);
                        if steps@[e].0 == w {
                            assert(steps@[b].1 == steps@[e].0);
                        }
                    }
                }
            }
        } else {
            assert(steps@.subrange(0, steps@.len() as int) =~= steps@);
        }
    }

    #[verifier::rlimit(40)]
    fn walk_from(&self, start: Ghost<int>, v: usize, marks: &mut Vec<bool>, steps: &mut Vec<(usize, usize)>)
        requires
            self.wf(),
            0 <= start@ < self.nodes_view().len(),
            v < self.nodes_view().len(),
            old(marks)@[v as int],
            reached(start@, old(steps)@, v as int),
            walk_state(self.nodes_view(), start@, old(marks)@, old(steps)@),
        ensures
            walk_state(self.nodes_view(), start@, final(marks)@, final(steps)@),
            grown(old(marks)@, old(steps)@, final(marks)@, final(steps)@),
            neighbours_marked(self.nodes_view(), final(marks)@, v as int),
            forall|e: int| old(steps)@.len() <= e < final(steps)@.len() ==>
                neighbours_marked(self.nodes_view(), final(marks)@, #[trigger] final(steps)@[e].1 as int),
            fresh_from(v as int, old(marks)@, final(steps)@, old(steps)@.len() as int),
        decreases unmarked(old(marks)@), 1int,
    {
        let ghost nodes = self.nodes_view();
        let ghost entry_marks = marks@;
        let ghost entry_steps = steps@;
        proof {
            assert(parent_before(nodes, v as int));
            assert(children_exact(nodes, v as int));
        }
        let node = &self.nodes[v];
        match node.parent {
            Some(p) => {
                assert(adjacent(nodes, v as int, p as int));
                self.visit(start, v, p, marks, steps);
                proof {
                    lemma_unmarked_monotone(entry_marks, marks@);
                }
            },
            None => {
                assert(steps@.subrange(0, steps@.len() as int) =~= steps@);
            },
        }
        proof {
            if steps@.len() == entry_steps.len() {
                assert(fresh_from(v as int, entry_marks, steps@, entry_steps.len() as int));
            }
        }
        let mut j: usize = 0;
        while j < node.children.len()
            invariant
                self.wf(),
                nodes == self.nodes_view(),
                0 <= start@ < nodes.len(),
                v < nodes.len(),
                *node == nodes[v as int],
                children_exact(nodes, v as int),
                j <= node.children@.len(),
                walk_state(nodes, start@, marks@, steps@),
                entry_marks.len() == nodes.len(),
                entry_marks == old(marks)@,
                marks@[v as int],
                reached(start@, entry_steps, v as int),
                grown(entry_marks, entry_steps, marks@, steps@),
                unmarked(marks@) <= unmarked(entry_marks),
                nodes[v as int].parent matches Some(p) ==> marks@[p as int],
                forall|c: int| 0 <= c < j ==> marks@[#[trigger] node.children@[c] as int],
                forall|e: int| entry_steps.len() <= e < steps@.len() ==>
                    neighbours_marked(nodes, marks@, #[trigger] steps@[e].1 as int),
                fresh_from(v as int, entry_marks, steps@, entry_steps.len() as int),
            decreases node.children@.len() - j,
        {
            let c = node.children[j];
            let ghost before_marks = marks@;
            let ghost before_steps = steps@;
            assert(before_marks[v as int]);
            assert(reached(start@, before_steps, v as int)) by {
                lemma_reached_grown(start@, entry_steps, before_steps, v as int);
            }
            assert(adjacent(nodes, v as int, c as int)) by {
                assert(node.children@.contains(c));
            }
            self.visit(start, v, c, marks, steps);
            proof {
                lemma_grown_trans(entry_marks, entry_steps, before_marks, before_steps, marks@, steps@);
                lemma_unmarked_monotone(before_marks, marks@);
                assert(is_walk(nodes, start@, steps@));
                lemma_fresh_chain(v as int, entry_marks, entry_steps.len() as int, before_marks, before_steps, steps@);
                assert forall|e: int| entry_steps.len() <= e < steps@.len() implies
                    neighbours_marked(nodes, marks@, #[trigger] steps@[e].1 as int) by {
                    if e < before_steps.len() {
                        assert(steps@.subrange(0, before_steps.len() as int) == before_steps);
                        assert(steps@[e] == before_steps[e]);
                        lemma_neighbours_marked_grow(nodes, self.root_view(), before_marks, marks@, before_steps[e].1 as int);
                    }
                }
                assert forall|cc: int| 0 <= cc <= j implies marks@[#[trigger] node.children@[cc] as int] by {
                    if cc < j {
                        assert(before_marks[node.children@[cc] as int]);
                    }
                }
                match nodes[v as int].parent {
                    Some(p) => {
                        assert(parent_before(nodes, v as int));
                        assert(p < before_marks.len());
                        assert(before_marks[p as int]);
                        assert(marks@[p as int]);
                    },
                    None => {},
                }
            }
            j = j + 1;
        }
    }

    /// The walk of the path-decay rendering: from `start`, across every edge of
    /// the skeleton in both directions, depth first, the parent before the
    /// children. Each step `(from, to)` crosses one edge from a node reached
    /// earlier to one reached for the first time; no node is reached twice nor
    /// the start again, and every node joined to a reached one is reached, so
    /// the steps are one fewer than the nodes joined to `start`. Nodes are
    /// told apart by their position in the arena; where ids are distinct, as
    /// the file format asks, no two steps enter nodes of one id.
    pub fn path_decay_walk(&self, start: usize) -> (r: Vec<(usize, usize)>)
        requires
            self.wf(),
            start < self.nodes_view().len(),
        ensures
            is_walk(self.nodes_view(), start as int, r@),
            forall|x: int, y: int|
                0 <= x < self.nodes_view().len() && 0 <= y < self.nodes_view().len() && reached(start as int, r@, x)
                    && #[trigger] adjacent(self.nodes_view(), x, y) ==> reached(start as int, r@, y),
            forall|s: Set<usize>| #[trigger] s.contains(start) && closed_under_edges(self.nodes_view(), s) ==> forall|e: int|
                0 <= e < r@.len() ==> s.contains(#[trigger] r@[e].1),
            r@.len() + 1 == reached_set(start as int, r@).len(),
            ids_distinct(self.nodes_view()) ==> forall|e: int, f: int|
                0 <= e < r@.len() && 0 <= f < r@.len() && e != f ==> self.nodes_view()[#[trigger] r@[e].1 as int].id
                    != self.nodes_view()[#[trigger] r@[f].1 as int].id,
    {
        let n = self.nodes.len();
        let mut marks: Vec<bool> = Vec::new();
        let mut i: usize = 0;
        while i < n
            invariant
                n == self.nodes_view().len(),
                i <= n,
                marks@.len() == i,
                forall|x: int| 0 <= x < i ==> marks@[x] == (x == start),
            decreases n - i,
        {
            marks.push(i == start);
            i = i + 1;
        }
        let mut steps: Vec<(usize, usize)> = Vec::new();
        proof {
            assert(link_targets(steps@) =~= seq![]);
        }
        self.walk_from(Ghost(start as int), start, &mut marks, &mut steps);
        proof {
            let nodes = self.nodes_view();
            assert forall|x: int, y: int|
                0 <= x < nodes.len() && 0 <= y < nodes.len() && reached(start as int, steps@, x)
                    && #[trigger] adjacent(nodes, x, y) implies reached(start as int, steps@, y) by {
                let t = link_targets(steps@);
                if x != start as int {
                    let e = choose|e: int| 0 <= e < t.len() && t[e] == x as usize;
                    assert(steps@[e].1 == x as usize);
                }
                assert(neighbours_marked(nodes, marks@, x));
                assert(children_exact(nodes, x));
                if nodes[y].parent == Some(x as usize) {
                    let jj = choose|jj: int| 0 <= jj < nodes[x].children@.len() && nodes[x].children@[jj] == y as usize;
                    assert(marks@[nodes[x].children@[jj] as int]);
                }
                assert(marks@[y]);
            }
            assert forall|s: Set<usize>| #[trigger] s.contains(start) && closed_under_edges(nodes, s) implies forall|e: int|
                0 <= e < steps@.len() ==> s.contains(#[trigger] steps@[e].1) by {
                assert forall|e: int| 0 <= e < steps@.len() implies s.contains(#[trigger] steps@[e].1) by {
                    lemma_walk_within(nodes, start as int, steps@, s, e);
                }
            }
            let t = link_targets(steps@);
            t.unique_seq_to_set();
            assert(!t.to_set().contains(start));
            assert(ids_distinct(nodes) ==> forall|e: int, f: int|
                0 <= e < steps@.len() && 0 <= f < steps@.len() && e != f ==> nodes[#[trigger] steps@[e].1 as int].id
                    != nodes[#[trigger] steps@[f].1 as int].id) by {
                if ids_distinct(nodes) {
                    assert forall|e: int, f: int|
                        0 <= e < steps@.len() && 0 <= f < steps@.len() && e != f implies nodes[#[trigger] steps@[e].1 as int].id
                            != nodes[#[trigger] steps@[f].1 as int].id by {
                        assert(t[e] != t[f]);
                    }
                }
            }
        }
        steps
    }

    /// Looks a node up by id in the root's tree, depth first.
    pub fn node(&self, id: i32) -> (r: Option<usize>)
        requires
            self.wf(),
        ensures
            r matches Some(k) ==> first_in_order_with_id(self.nodes_view(), preorder(self.nodes_view(), self.root_view()), id, k),
            r is None ==> forall|m: int| 0 <= m < preorder(self.nodes_view(), self.root_view()).len() ==>
                self.nodes_view()[#[trigger] preorder(self.nodes_view(), self.root_view())[m] as int].id != id,
    {
        let ghost nodes = self.nodes_view();
        let mut order: Vec<usize> = Vec::new();
        order.push(self.root);
        let mut links: Vec<(usize, usize)> = Vec::new();
        self.collect_links(self.root, &mut links);
        let mut e: usize = 0;
        while e < links.len()
            invariant
                e <= links@.len(),
                links@ == subtree_links(nodes, self.root_view()),
                order@ =~= seq![self.root] + link_targets(links@.subrange(0, e as int)),
            decreases links@.len() - e,
        {
            order.push(links[e].1);
            e = e + 1;
            assert(link_targets(links@.subrange(0, e as int)) =~= link_targets(links@.subrange(0, e - 1)).push(links@[e - 1].1));
        }
        assert(links@.subrange(0, e as int) =~= links@);
        assert(order@ == preorder(nodes, self.root_view()));
        proof {
            lemma_links(nodes, self.root_view(), self.root_view());
            let t = link_targets(links@);
            assert forall|a: int| 0 <= a < order@.len() implies order@[a] < nodes.len() by {
                if a > 0 {
                    assert(order@[a] == t[a - 1]);
                    assert(t.contains(t[a - 1]));
                }
            }
        }
        let mut m: usize = 0;
        while m < order.len()
            invariant
                self.wf(),
                nodes == self.nodes_view(),
                order@ == preorder(nodes, self.root_view()),
                m <= order@.len(),
                forall|a: int| 0 <= a < order@.len() ==> order@[a] < nodes.len(),
                forall|a: int| 0 <= a < m ==> nodes[#[trigger] order@[a] as int].id != id,
            decreases order@.len() - m,
        {
            let k = order[m];
            if self.nodes[k].id == id {
                return Some(k);
            }
            m = m + 1;
        }
        None
    }
}

} // verus!
