use vstd::prelude::*;

use crate::vec::{maximum, minimum, Vec3, max_spec, min_spec};

verus! {

/// An axis-aligned box given by its two corners, in ordering keys (see
/// `coordinate_key`).
#[derive(Debug, Clone, Copy, PartialEq, Eq)]
pub struct Aabb {
    pub min: Vec3<i64>,
    pub max: Vec3<i64>,
}

/// Whether point `p` lies in box `b`, borders included.
pub open spec fn contains_spec(b: Aabb, p: Vec3<i64>) -> bool {
    &&& b.min.x <= p.x <= b.max.x
    &&& b.min.y <= p.y <= b.max.y
    &&& b.min.z <= p.z <= b.max.z
}

/// Whether box `outer` covers box `inner`.
pub open spec fn encloses(outer: Aabb, inner: Aabb) -> bool {
    &&& outer.min.x <= inner.min.x && inner.max.x <= outer.max.x
    &&& outer.min.y <= inner.min.y && inner.max.y <= outer.max.y
    &&& outer.min.z <= inner.min.z && inner.max.z <= outer.max.z
}

/// The smallest box that covers both.
pub open spec fn union_spec(a: Aabb, b: Aabb) -> Aabb {
    Aabb { min: min_spec(a.min, b.min), max: max_spec(a.max, b.max) }
}

/// The union of a nonempty run of boxes, taken from the first on.
pub open spec fn union_all(boxes: Seq<Aabb>) -> Aabb
    decreases boxes.len(),
{
    if boxes.len() <= 1 {
        boxes[0]
    } else {
        union_spec(union_all(boxes.drop_last()), boxes.last())
    }
}

/// The boxes of a run of build items.
pub open spec fn item_boxes(items: Seq<BuildItem>) -> Seq<Aabb> {
    items.map_values(|it: BuildItem| it.bounds)
}

impl Aabb {
    pub fn contains(&self, p: Vec3<i64>) -> (r: bool)
        ensures
            r == contains_spec(*self, p),
    {
        p.x >= self.min.x && p.y >= self.min.y && p.z >= self.min.z && p.x <= self.max.x && p.y <= self.max.y
            && p.z <= self.max.z
    }

    pub fn union(&self, o: &Aabb) -> (r: Aabb)
        ensures
            r == union_spec(*self, *o),
    {
        Aabb { min: minimum(self.min, o.min), max: maximum(self.max, o.max) }
    }
}

/// One object as the hierarchy is built: its position in the batch, its box,
/// and the key of its center.
#[derive(Debug, Clone, Copy, PartialEq, Eq)]
pub struct BuildItem {
    pub index: usize,
    pub bounds: Aabb,
    pub center: Vec3<i64>,
}

/// A node of the hierarchy: a leaf names one object; an inner node covers
/// its two children, which split its `count` objects along `axis`.
pub enum BvhNode {
    Leaf { bounds: Aabb, index: usize },
    Inner { bounds: Aabb, axis: u8, count: usize, left: Box<BvhNode>, right: Box<BvhNode> },
}

impl BvhNode {
    pub open spec fn bounds_spec(&self) -> Aabb {
        match self {
            BvhNode::Leaf { bounds, .. } => *bounds,
            BvhNode::Inner { bounds, .. } => *bounds,
        }
    }

    /// The objects under this node.
    pub open spec fn leaf_set(&self) -> Set<usize>
        decreases self,
    {
        match self {
            BvhNode::Leaf { index, .. } => set![*index],
            BvhNode::Inner { left, right, .. } => left.leaf_set() + right.leaf_set(),
        }
    }

    /// The number of leaves.
    pub open spec fn leaf_count(&self) -> nat
        decreases self,
    {
        match self {
            BvhNode::Leaf { .. } => 1,
            BvhNode::Inner { left, right, .. } => left.leaf_count() + right.leaf_count(),
        }
    }

    /// Every inner node is a median split of its objects: it counts them,
    /// its left child holds half of them (rounded down) and its right child
    /// the rest, no object is on both sides, every center on the left is at
    /// most every center on the right along the node's axis, and its box
    /// covers both children's boxes.
    pub open spec fn median_split(&self, centers: Seq<Vec3<i64>>) -> bool
        decreases self,
    {
        match self {
            BvhNode::Leaf { .. } => true,
            BvhNode::Inner { bounds, axis, count, left, right } => {
                &&& left.median_split(centers)
                &&& right.median_split(centers)
                &&& *count == left.leaf_count() + right.leaf_count()
                &&& left.leaf_count() == *count as nat / 2
                &&& left.leaf_set().disjoint(right.leaf_set())
                &&& encloses(*bounds, left.bounds_spec())
                &&& encloses(*bounds, right.bounds_spec())
                &&& forall|a: usize, b: usize|
                    #[trigger] left.leaf_set().contains(a) && #[trigger] right.leaf_set().contains(b) ==> axis_key(
                        centers[a as int],
                        *axis,
                    ) <= axis_key(centers[b as int], *axis)
            },
        }
    }

    /// Every inner node's axis is one that `widest_axis` gave for its box.
    pub open spec fn axes_from<F: Fn(Aabb) -> u8>(&self, widest_axis: F) -> bool
        decreases self,
    {
        match self {
            BvhNode::Leaf { .. } => true,
            BvhNode::Inner { bounds, axis, left, right, .. } => {
                &&& widest_axis.ensures((*bounds,), *axis)
                &&& left.axes_from(widest_axis)
                &&& right.axes_from(widest_axis)
            },
        }
    }

    /// What a search from this node may return: outside the node's box,
    /// nothing; at a leaf, what the probe of its object gave; at an inner
    /// node, the left child's result when it hit, else the right child's.
    pub open spec fn search_outcome<T, F: Fn(usize) -> Option<T>>(&self, p: Vec3<i64>, probe: F, r: Option<T>) -> bool
        decreases self,
    {
        match self {
            BvhNode::Leaf { bounds, index } => if contains_spec(*bounds, p) {
                probe.ensures((*index,), r)
            } else {
                r is None
            },
            BvhNode::Inner { bounds, left, right, .. } => if !contains_spec(*bounds, p) {
                r is None
            } else {
                (r is Some && left.search_outcome(p, probe, r)) || (left.search_outcome(p, probe, None::<T>)
                    && right.search_outcome(p, probe, r))
            },
        }
    }

    /// Each leaf names an object of the batch and holds its box, and each
    /// node's box covers the boxes of all objects under it.
    pub open spec fn wf(&self, boxes: Seq<Aabb>) -> bool
        decreases self,
    {
        match self {
            BvhNode::Leaf { bounds, index } => *index < boxes.len() && *bounds == boxes[*index as int],
            BvhNode::Inner { bounds, left, right, .. } => {
                &&& left.wf(boxes)
                &&& right.wf(boxes)
                &&& forall|i: usize| #[trigger] self.leaf_set().contains(i) ==> encloses(*bounds, boxes[i as int])
            },
        }
    }
}

/// In a median-split tree each object sits at exactly one leaf: the set of
/// objects under a node is as large as its number of leaves.
pub proof fn lemma_each_object_once(node: &BvhNode, centers: Seq<Vec3<i64>>)
    requires
        node.median_split(centers),
    ensures
        node.leaf_set().finite(),
        node.leaf_set().len() == node.leaf_count(),
    decreases node,
{
    match node {
        BvhNode::Leaf { index, .. } => {
            assert(node.leaf_set() =~= Set::empty().insert(*index));
        },
        BvhNode::Inner { left, right, .. } => {
            lemma_each_object_once(left, centers);
            lemma_each_object_once(right, centers);
            vstd::set_lib::lemma_set_disjoint_lens(left.leaf_set(), right.leaf_set());
        },
    }
}

proof fn lemma_union_within(s: Seq<Aabb>, outer: Aabb)
    requires
        s.len() >= 1,
        forall|a: int| 0 <= a < s.len() ==> encloses(outer, #[trigger] s[a]),
    ensures
        encloses(outer, union_all(s)),
    decreases s.len(),
{
    if s.len() > 1 {
        lemma_union_within(s.drop_last(), outer);
        assert(encloses(outer, s.last()));
    }
}

proof fn lemma_leaf_set_nonempty(node: &BvhNode)
    ensures
        exists|i: usize| node.leaf_set().contains(i),
    decreases node,
{
    match node {
        BvhNode::Leaf { index, .. } => {
            assert(node.leaf_set().contains(*index));
        },
        BvhNode::Inner { left, .. } => {
            lemma_leaf_set_nonempty(left);
            let i = choose|i: usize| left.leaf_set().contains(i);
            assert(node.leaf_set().contains(i));
        },
    }
}

proof fn lemma_leaf_enclosed(node: &BvhNode, boxes: Seq<Aabb>, i: usize)
    requires
        node.wf(boxes),
        node.leaf_set().contains(i),
    ensures
        i < boxes.len(),
        encloses(node.bounds_spec(), boxes[i as int]),
    decreases node,
{
    match node {
        BvhNode::Leaf { .. } => {},
        BvhNode::Inner { left, right, .. } => {
            if left.leaf_set().contains(i) {
                lemma_leaf_enclosed(left, boxes, i);
            } else {
                lemma_leaf_enclosed(right, boxes, i);
            }
        },
    }
}

/// What a containment query may return: a hit of an object under the node
/// whose box holds `p`, or nothing when every such object was probed and missed.
pub open spec fn hit_outcome<T, F: Fn(usize) -> Option<T>>(
    objects: Set<usize>,
    boxes: Seq<Aabb>,
    p: Vec3<i64>,
    probe: F,
    r: Option<T>,
) -> bool {
    match r {
        Some(v) => exists|i: usize|
            #[trigger] objects.contains(i) && contains_spec(boxes[i as int], p) && probe.ensures((i,), Some(v)),
        None => forall|i: usize|
            #[trigger] objects.contains(i) && contains_spec(boxes[i as int], p) ==> probe.ensures((i,), None::<T>),
    }
}

fn node_hit<T, F: Fn(usize) -> Option<T>>(node: &BvhNode, boxes: Ghost<Seq<Aabb>>, p: Vec3<i64>, probe: &F) -> (r: Option<T>)
    requires
        node.wf(boxes@),
        forall|i: usize| i < boxes@.len() ==> #[trigger] probe.requires((i,)),
    ensures
        hit_outcome(node.leaf_set(), boxes@, p, *probe, r),
        node.search_outcome(p, *probe, r),
    decreases node,
{
    match node {
        BvhNode::Leaf { bounds, index } => {
            assert(node.leaf_set() =~= set![*index]);
            if bounds.contains(p) {
                let r = probe(*index);
                assert(node.leaf_set().contains(*index));
                r
            } else {
                None
            }
        },
        BvhNode::Inner { bounds, left, right, .. } => {
            if !bounds.contains(p) {
                proof {
                    assert forall|i: usize| #[trigger] node.leaf_set().contains(i) implies !contains_spec(boxes@[i as int], p) by {
                        lemma_leaf_enclosed(node, boxes@, i);
                    }
                }
                return None;
            }
            let l = node_hit(left, boxes, p, probe);
            let ghost from_left = l;
            match l {
                Some(v) => {
                    proof {
                        assert(left.search_outcome(p, *probe, from_left));
                        assert(from_left == Some(v));
                        assert(node.search_outcome(p, *probe, Some(v)));
                        let i = choose|i: usize| #[trigger] left.leaf_set().contains(i) && contains_spec(boxes@[i as int], p) && probe.ensures((i,), Some(v));
                        assert(node.leaf_set().contains(i));
                    }
                    Some(v)
                },
                None => {
                    let r = node_hit(right, boxes, p, probe);
                    proof {
                        assert(left.search_outcome(p, *probe, from_left));
                        assert(from_left is None);
                        assert(node.search_outcome(p, *probe, r));
                        if r is Some {
                            let i = choose|i: usize| #[trigger] right.leaf_set().contains(i) && contains_spec(boxes@[i as int], p) && probe.ensures((i,), r);
                            assert(node.leaf_set().contains(i));
                        }
                    }
                    r
                },
            }
        },
    }
}

/// The coordinate of `c` on an axis: 0 for x, 1 for y, any other for z.
pub open spec fn axis_key(c: Vec3<i64>, axis: u8) -> i64 {
    if axis == 0 {
        c.x
    } else if axis == 1 {
        c.y
    } else {
        c.z
    }
}

fn key_on(c: Vec3<i64>, axis: u8) -> (r: i64)
    ensures
        r == axis_key(c, axis),
{
    if axis == 0 {
        c.x
    } else if axis == 1 {
        c.y
    } else {
        c.z
    }
}

/// The objects named by a run of build items.
pub open spec fn index_set(items: Seq<BuildItem>) -> Set<usize> {
    Set::new(|i: usize| exists|a: int| 0 <= a < items.len() && #[trigger] items[a].index == i)
}

/// Every item names an object of the batch and carries its box and center.
pub open spec fn items_ok(boxes: Seq<Aabb>, centers: Seq<Vec3<i64>>, items: Seq<BuildItem>) -> bool {
    forall|a: int| 0 <= a < items.len() ==> {
        &&& (#[trigger] items[a]).index < boxes.len()
        &&& items[a].index < centers.len()
        &&& items[a].bounds == boxes[items[a].index as int]
        &&& items[a].center == centers[items[a].index as int]
    }
}

/// No two items name the same object.
pub open spec fn indices_distinct(items: Seq<BuildItem>) -> bool {
    forall|a: int, b: int| 0 <= a < items.len() && 0 <= b < items.len() && a != b ==> items[a].index != items[b].index
}

/// The items are in order of their centers on `axis`.
pub open spec fn sorted_on(items: Seq<BuildItem>, axis: u8) -> bool {
    forall|a: int, b: int| 0 <= a < b < items.len() ==> axis_key(items[a].center, axis) <= axis_key(items[b].center, axis)
}

/// Merges two runs that are in order on `axis` into one.
fn merge_on(left: Vec<BuildItem>, right: Vec<BuildItem>, axis: u8) -> (r: Vec<BuildItem>)
    requires
        sorted_on(left@, axis),
        sorted_on(right@, axis),
        left@.no_duplicates(),
        right@.no_duplicates(),
        forall|a: int, b: int| 0 <= a < left@.len() && 0 <= b < right@.len() ==> left@[a] != right@[b],
    ensures
        r@.len() == left@.len() + right@.len(),
        forall|x: BuildItem| r@.contains(x) <==> (left@.contains(x) || right@.contains(x)),
        sorted_on(r@, axis),
        r@.no_duplicates(),
{
    let mut out: Vec<BuildItem> = Vec::new();
    let mut i: usize = 0;
    let mut j: usize = 0;
    while i < left.len() || j < right.len()
        invariant
            sorted_on(left@, axis),
            sorted_on(right@, axis),
            left@.no_duplicates(),
            right@.no_duplicates(),
            forall|a: int, b: int| 0 <= a < left@.len() && 0 <= b < right@.len() ==> left@[a] != right@[b],
            out@.no_duplicates(),
            i <= left@.len(),
            j <= right@.len(),
            out@.len() == i + j,
            sorted_on(out@, axis),
            forall|x: BuildItem| out@.contains(x) <==> (left@.subrange(0, i as int).contains(x) || right@.subrange(0, j as int).contains(x)),
            out@.len() > 0 && i < left@.len() ==> axis_key(out@.last().center, axis) <= axis_key(left@[i as int].center, axis),
            out@.len() > 0 && j < right@.len() ==> axis_key(out@.last().center, axis) <= axis_key(right@[j as int].center, axis),
        decreases left@.len() + right@.len() - i - j,
    {
        let take_left = if i < left.len() && j < right.len() {
            key_on(left[i].center, axis) <= key_on(right[j].center, axis)
        } else {
            i < left.len()
        };
        let ghost before = out@;
        let ghost (i0, j0) = (i as int, j as int);
        let x = if take_left {
            let x = left[i];
            i = i + 1;
            x
        } else {
            let x = right[j];
            j = j + 1;
            x
        };
        proof {
            assert(!before.contains(x)) by {
                if before.contains(x) {
                    if left@.subrange(0, i0).contains(x) {
                        let z = choose|z: int| 0 <= z < i0 && left@.subrange(0, i0)[z] == x;
                        if take_left {
                            assert(left@[z] == left@[i0]);
                        } else {
                            assert(left@[z] == right@[j0]);
                        }
                    } else {
                        assert(right@.subrange(0, j0).contains(x));
                        let z = choose|z: int| 0 <= z < j0 && right@.subrange(0, j0)[z] == x;
                        if take_left {
                            assert(left@[i0] == right@[z]);
                        } else {
                            assert(right@[z] == right@[j0]);
                        }
                    }
                }
            }
        }
        out.push(x);
        proof {
            assert(out@ == before.push(x));
            assert(out@.no_duplicates()) by {
                assert forall|a: int, b: int| 0 <= a < out@.len() && 0 <= b < out@.len() && a != b implies out@[a] != out@[b] by {
                    if a == out@.len() - 1 {
                        assert(before.contains(before[b]));
                    } else if b == out@.len() - 1 {
                        assert(before.contains(before[a]));
                    }
                }
            }
            assert forall|a: int, b: int| 0 <= a < b < out@.len() implies axis_key(out@[a].center, axis) <= axis_key(out@[b].center, axis) by {
                if b == out@.len() - 1 && a < b {
                    if before.len() > 0 {
                        assert(axis_key(before[a].center, axis) <= axis_key(before.last().center, axis));
                    }
                }
            }
            let ls = left@.subrange(0, i as int);
            let rs = right@.subrange(0, j as int);
            let ls0 = left@.subrange(0, i0);
            let rs0 = right@.subrange(0, j0);
            if take_left {
                assert(ls =~= ls0.push(x));
                assert(rs =~= rs0);
            } else {
                assert(ls =~= ls0);
                assert(rs =~= rs0.push(x));
            }
            assert forall|y: BuildItem| out@.contains(y) <==> (ls.contains(y) || rs.contains(y)) by {
                if out@.contains(y) && y != x {
                    let w = choose|w: int| 0 <= w < out@.len() && out@[w] == y;
                    assert(before[w] == y);
                    assert(before.contains(y));
                    if ls0.contains(y) {
                        let z = choose|z: int| 0 <= z < ls0.len() && ls0[z] == y;
                        assert(ls[z] == y);
                    } else {
                        let z = choose|z: int| 0 <= z < rs0.len() && rs0[z] == y;
                        assert(rs[z] == y);
                    }
                }
                if y == x {
                    assert(out@[out@.len() - 1] == x);
                    if take_left {
                        assert(ls[ls.len() - 1] == x);
                    } else {
                        assert(rs[rs.len() - 1] == x);
                    }
                }
                if (ls.contains(y) || rs.contains(y)) && y != x {
                    if ls.contains(y) {
                        let z = choose|z: int| 0 <= z < ls.len() && ls[z] == y;
                        if take_left && z == ls.len() - 1 {
                        } else {
                            assert(ls0[z] == y);
                            assert(ls0.contains(y));
                        }
                    } else {
                        let z = choose|z: int| 0 <= z < rs.len() && rs[z] == y;
                        if !take_left && z == rs.len() - 1 {
                        } else {
                            assert(rs0[z] == y);
                            assert(rs0.contains(y));
                        }
                    }
                    assert(before.contains(y));
                    let w = choose|w: int| 0 <= w < before.len() && before[w] == y;
                    assert(out@[w] == y);
                }
            }
        }
    }
    assert(left@.subrange(0, i as int) =~= left@);
    assert(right@.subrange(0, j as int) =~= right@);
    out
}

/// Orders the items by their centers on `axis`.
fn sort_by_axis(items: Vec<BuildItem>, axis: u8) -> (r: Vec<BuildItem>)
    requires
        items@.no_duplicates(),
    ensures
        r@.len() == items@.len(),
        forall|x: BuildItem| r@.contains(x) <==> items@.contains(x),
        sorted_on(r@, axis),
        r@.no_duplicates(),
    decreases items@.len(),
{
    if items.len() <= 1 {
        return items;
    }
    let mut left = items;
    let ghost all = left@;
    let mid = left.len() / 2;
    let right = left.split_off(mid);
    proof {
        assert(all =~= left@ + right@);
        assert(left@.no_duplicates()) by {
            assert forall|a: int, b: int| 0 <= a < left@.len() && 0 <= b < left@.len() && a != b implies left@[a] != left@[b] by {
                assert(left@[a] == all[a] && left@[b] == all[b]);
            }
        }
        assert(right@.no_duplicates()) by {
            assert forall|a: int, b: int| 0 <= a < right@.len() && 0 <= b < right@.len() && a != b implies right@[a] != right@[b] by {
                assert(right@[a] == all[a + mid] && right@[b] == all[b + mid]);
            }
        }
        assert forall|a: int, b: int| 0 <= a < left@.len() && 0 <= b < right@.len() implies left@[a] != right@[b] by {
            assert(left@[a] == all[a] && right@[b] == all[b + mid]);
        }
        assert forall|x: BuildItem| all.contains(x) <==> (left@.contains(x) || right@.contains(x)) by {
            if all.contains(x) {
                let w = choose|w: int| 0 <= w < all.len() && all[w] == x;
                if w < mid {
                    assert(left@[w] == x);
                } else {
                    assert(right@[w - mid] == x);
                }
            }
            if left@.contains(x) {
                let w = choose|w: int| 0 <= w < left@.len() && left@[w] == x;
                assert(all[w] == x);
            }
            if right@.contains(x) {
                let w = choose|w: int| 0 <= w < right@.len() && right@[w] == x;
                assert(all[w + mid] == x);
            }
        }
    }
    let ghost (lv, rv) = (left@, right@);
    let l = sort_by_axis(left, axis);
    let r = sort_by_axis(right, axis);
    proof {
        assert forall|a: int, b: int| 0 <= a < l@.len() && 0 <= b < r@.len() implies l@[a] != r@[b] by {
            assert(l@.contains(l@[a]) && r@.contains(r@[b]));
            let x = choose|x: int| 0 <= x < lv.len() && lv[x] == l@[a];
            let y = choose|y: int| 0 <= y < rv.len() && rv[y] == r@[b];
        }
    }
    merge_on(l, r, axis)
}

/// The box that covers every item's box.
fn enclosing(items: &Vec<BuildItem>) -> (r: Aabb)
    requires
        items@.len() >= 1,
    ensures
        r == union_all(item_boxes(items@)),
        forall|a: int| 0 <= a < items@.len() ==> encloses(r, #[trigger] items@[a].bounds),
{
    let mut acc = items[0].bounds;
    let mut i: usize = 1;
    assert(item_boxes(items@).subrange(0, 1) =~= seq![items@[0].bounds]);
    while i < items.len()
        invariant
            1 <= i <= items@.len(),
            acc == union_all(item_boxes(items@).subrange(0, i as int)),
            forall|a: int| 0 <= a < i ==> encloses(acc, #[trigger] items@[a].bounds),
        decreases items@.len() - i,
    {
        acc = acc.union(&items[i].bounds);
        i = i + 1;
        assert(item_boxes(items@).subrange(0, i as int).drop_last() =~= item_boxes(items@).subrange(0, i - 1));
    }
    assert(item_boxes(items@).subrange(0, i as int) =~= item_boxes(items@));
    acc
}

proof fn lemma_distinct_no_dup(items: Seq<BuildItem>)
    requires
        indices_distinct(items),
    ensures
        items.no_duplicates(),
{
    assert forall|a: int, b: int| 0 <= a < items.len() && 0 <= b < items.len() && a != b implies items[a] != items[b] by {
        assert(items[a].index != items[b].index);
    }
}

/// What the build takes from a sorted run cut in two: both halves are valid
/// runs, they name disjoint objects that together are those of the whole run,
/// and every center on the left is at most every center on the right.
proof fn lemma_split_items(
    boxes: Seq<Aabb>,
    centers: Seq<Vec3<i64>>,
    given: Seq<BuildItem>,
    all: Seq<BuildItem>,
    l: Seq<BuildItem>,
    r: Seq<BuildItem>,
    axis: u8,
)
    requires
        items_ok(boxes, centers, given),
        indices_distinct(given),
        all.len() == given.len(),
        forall|x: BuildItem| all.contains(x) <==> given.contains(x),
        sorted_on(all, axis),
        all.no_duplicates(),
        all == l + r,
    ensures
        items_ok(boxes, centers, l),
        items_ok(boxes, centers, r),
        indices_distinct(l),
        indices_distinct(r),
        index_set(l) + index_set(r) == index_set(given),
        index_set(l).disjoint(index_set(r)),
        forall|x: int| 0 <= x < l.len() ==> given.contains(#[trigger] l[x]),
        forall|x: int| 0 <= x < r.len() ==> given.contains(#[trigger] r[x]),
        forall|i: usize, j: usize|
            #[trigger] index_set(l).contains(i) && #[trigger] index_set(r).contains(j) ==> axis_key(centers[i as int], axis)
                <= axis_key(centers[j as int], axis),
{
    let m = l.len() as int;
    assert forall|a: int| 0 <= a < all.len() implies given.contains(#[trigger] all[a]) && {
        &&& all[a].index < boxes.len()
        &&& all[a].index < centers.len()
        &&& all[a].bounds == boxes[all[a].index as int]
        &&& all[a].center == centers[all[a].index as int]
    } by {
        assert(all.contains(all[a]));
        let z = choose|z: int| 0 <= z < given.len() && given[z] == all[a];
        assert(items_ok(boxes, centers, given));
        assert(given[z].index < boxes.len());
    }
    assert(indices_distinct(all)) by {
        assert forall|a: int, b: int| 0 <= a < all.len() && 0 <= b < all.len() && a != b implies all[a].index != all[b].index by {
            assert(given.contains(all[a]) && given.contains(all[b]));
            let za = choose|z: int| 0 <= z < given.len() && given[z] == all[a];
            let zb = choose|z: int| 0 <= z < given.len() && given[z] == all[b];
            if all[a].index == all[b].index {
                assert(given[za].index == given[zb].index);
                assert(za == zb);
            }
        }
    }
    assert forall|x: int| 0 <= x < l.len() implies given.contains(#[trigger] l[x]) by {
        assert(l[x] == all[x]);
    }
    assert forall|x: int| 0 <= x < r.len() implies given.contains(#[trigger] r[x]) by {
        assert(r[x] == all[x + m]);
    }
    assert(items_ok(boxes, centers, l)) by {
        assert forall|a: int| 0 <= a < l.len() implies (#[trigger] l[a]).index < boxes.len() && l[a].index < centers.len()
            && l[a].bounds == boxes[l[a].index as int] && l[a].center == centers[l[a].index as int] by {
            assert(l[a] == all[a]);
        }
    }
    assert(items_ok(boxes, centers, r)) by {
        assert forall|a: int| 0 <= a < r.len() implies (#[trigger] r[a]).index < boxes.len() && r[a].index < centers.len()
            && r[a].bounds == boxes[r[a].index as int] && r[a].center == centers[r[a].index as int] by {
            assert(r[a] == all[a + m]);
        }
    }
    assert(indices_distinct(l)) by {
        assert forall|a: int, b: int| 0 <= a < l.len() && 0 <= b < l.len() && a != b implies l[a].index != l[b].index by {
            assert(l[a] == all[a] && l[b] == all[b]);
        }
    }
    assert(indices_distinct(r)) by {
        assert forall|a: int, b: int| 0 <= a < r.len() && 0 <= b < r.len() && a != b implies r[a].index != r[b].index by {
            assert(r[a] == all[a + m] && r[b] == all[b + m]);
        }
    }
    assert(index_set(l).disjoint(index_set(r))) by {
        assert forall|i: usize| index_set(l).contains(i) implies !index_set(r).contains(i) by {
            let a = choose|a: int| 0 <= a < l.len() && #[trigger] l[a].index == i;
            if index_set(r).contains(i) {
                let b = choose|b: int| 0 <= b < r.len() && #[trigger] r[b].index == i;
                assert(all[a].index == all[b + m].index);
            }
        }
    }
    assert forall|i: usize, j: usize|
        #[trigger] index_set(l).contains(i) && #[trigger] index_set(r).contains(j) implies axis_key(centers[i as int], axis)
            <= axis_key(centers[j as int], axis) by {
        let a = choose|a: int| 0 <= a < l.len() && #[trigger] l[a].index == i;
        let b = choose|b: int| 0 <= b < r.len() && #[trigger] r[b].index == j;
        assert(l[a] == all[a] && r[b] == all[b + m]);
        assert(axis_key(all[a].center, axis) <= axis_key(all[b + m].center, axis));
    }
    assert(index_set(l) + index_set(r) =~= index_set(given)) by {
        assert forall|i: usize| (index_set(l) + index_set(r)).contains(i) <==> index_set(given).contains(i) by {
            if index_set(given).contains(i) {
                let a = choose|a: int| 0 <= a < given.len() && #[trigger] given[a].index == i;
                assert(given.contains(given[a]));
                assert(all.contains(given[a]));
                let w = choose|w: int| 0 <= w < all.len() && all[w] == given[a];
                if w < m {
                    assert(l[w].index == i);
                } else {
                    assert(r[w - m].index == i);
                }
            }
            if index_set(l).contains(i) {
                let a = choose|a: int| 0 <= a < l.len() && #[trigger] l[a].index == i;
                let z = choose|z: int| 0 <= z < given.len() && given[z] == l[a];
                assert(given[z].index == i);
            }
            if index_set(r).contains(i) {
                let a = choose|a: int| 0 <= a < r.len() && #[trigger] r[a].index == i;
                let z = choose|z: int| 0 <= z < given.len() && given[z] == r[a];
                assert(given[z].index == i);
            }
        }
    }
}

fn build_node<F: Fn(Aabb) -> u8>(
    items: Vec<BuildItem>,
    boxes: Ghost<Seq<Aabb>>,
    centers: Ghost<Seq<Vec3<i64>>>,
    widest_axis: &F,
) -> (r: Box<BvhNode>)
    requires
        items@.len() >= 1,
        items_ok(boxes@, centers@, items@),
        indices_distinct(items@),
        forall|b: Aabb| #[trigger] widest_axis.requires((b,)),
    ensures
        r.wf(boxes@),
        r.median_split(centers@),
        r.axes_from(*widest_axis),
        r.leaf_set() == index_set(items@),
        r.leaf_count() == items@.len(),
        r.bounds_spec() == union_all(item_boxes(items@)),
    decreases items@.len(),
{
    if items.len() == 1 {
        let it = items[0];
        let r = Box::new(BvhNode::Leaf { bounds: it.bounds, index: it.index });
        proof {
            assert(item_boxes(items@) =~= seq![it.bounds]);
            assert(items@[0] == it);
            assert(r.leaf_set() =~= index_set(items@)) by {
                assert forall|i: usize| index_set(items@).contains(i) implies i == it.index by {
                    let a = choose|a: int| 0 <= a < items@.len() && #[trigger] items@[a].index == i;
                }
                assert(index_set(items@).contains(it.index)) by {
                    assert(items@[0].index == it.index);
                }
            }
        }
        return r;
    }
    let bounds = enclosing(&items);
    let axis = widest_axis(bounds);
    let ghost given = items@;
    proof {
        lemma_distinct_no_dup(given);
    }
    let mut sorted = sort_by_axis(items, axis);
    let n = sorted.len();
    let mid = n / 2;
    let ghost all = sorted@;
    let right_items = sorted.split_off(mid);
    let left_items = sorted;
    proof {
        assert(all =~= left_items@ + right_items@);
        lemma_split_items(boxes@, centers@, given, all, left_items@, right_items@, axis);
    }
    let ghost (ls, rs) = (left_items@, right_items@);
    let left = build_node(left_items, boxes, centers, widest_axis);
    let right = build_node(right_items, boxes, centers, widest_axis);
    proof {
        assert forall|a: int| 0 <= a < ls.len() implies encloses(bounds, #[trigger] item_boxes(ls)[a]) by {
            let z = choose|z: int| 0 <= z < given.len() && given[z] == ls[a];
        }
        assert forall|a: int| 0 <= a < rs.len() implies encloses(bounds, #[trigger] item_boxes(rs)[a]) by {
            let z = choose|z: int| 0 <= z < given.len() && given[z] == rs[a];
        }
        lemma_union_within(item_boxes(ls), bounds);
        lemma_union_within(item_boxes(rs), bounds);
    }
    let r = Box::new(BvhNode::Inner { bounds, axis, count: n, left, right });
    proof {
        assert(r.leaf_set() == index_set(given));
        assert forall|i: usize| #[trigger] r.leaf_set().contains(i) implies encloses(bounds, boxes@[i as int]) by {
            let a = choose|a: int| 0 <= a < given.len() && #[trigger] given[a].index == i;
            assert(items_ok(boxes@, centers@, given));
            assert(given[a].bounds == boxes@[i as int]);
            assert(encloses(bounds, given[a].bounds));
        }
    }
    r
}

/// The objects of a batch of `n`.
pub open spec fn all_objects(n: nat) -> Set<usize> {
    Set::new(|i: usize| i < n)
}

/// A bounding-volume hierarchy over a batch of object boxes, built once by
/// median splits along the widest axis.
pub struct BVH {
    root: Option<Box<BvhNode>>,
    boxes: Vec<Aabb>,
}

impl BVH {
    pub closed spec fn boxes_view(&self) -> Seq<Aabb> {
        self.boxes@
    }

    /// The root of the hierarchy; none for an empty batch.
    pub closed spec fn tree(&self) -> Option<BvhNode> {
        match self.root {
            Some(r) => Some(*r),
            None => None,
        }
    }

    /// The hierarchy was built over `boxes` with these centers: a median
    /// split at every inner node along an axis that `widest_axis` chose for
    /// its box, each object at exactly one leaf, and the root box the union
    /// of all boxes.
    pub open spec fn built_from<F: Fn(Aabb) -> u8>(&self, boxes: Seq<Aabb>, centers: Seq<Vec3<i64>>, widest_axis: F) -> bool {
        &&& self.boxes_view() == boxes
        &&& (self.tree() is None <==> boxes.len() == 0)
        &&& self.tree() matches Some(t) ==> {
            &&& t.wf(boxes)
            &&& t.median_split(centers)
            &&& t.axes_from(widest_axis)
            &&& t.leaf_set() == all_objects(boxes.len())
            &&& t.leaf_count() == boxes.len()
            &&& t.bounds_spec() == union_all(boxes)
        }
    }

    /// The tree covers exactly the objects of the batch, and its root box is
    /// their union.
    pub closed spec fn wf(&self) -> bool {
        match self.root {
            None => self.boxes@.len() == 0,
            Some(r) => r.wf(self.boxes@) && r.leaf_set() == all_objects(self.boxes@.len()) && r.bounds_spec()
                == union_all(self.boxes@),
        }
    }

    /// Builds the hierarchy over the boxes of a batch of objects and the keys
    /// of their centers; `widest_axis` names the axis along which a box is
    /// widest (0 for x, 1 for y, any other for z).
    pub fn new<F: Fn(Aabb) -> u8>(boxes: Vec<Aabb>, centers: &Vec<Vec3<i64>>, widest_axis: &F) -> (r: BVH)
        requires
            centers@.len() == boxes@.len(),
            forall|b: Aabb| #[trigger] widest_axis.requires((b,)),
        ensures
            r.wf(),
            r.built_from(boxes@, centers@, *widest_axis),
    {
        let n = boxes.len();
        if n == 0 {
            return BVH { root: None, boxes };
        }
        let mut items: Vec<BuildItem> = Vec::new();
        let mut i: usize = 0;
        while i < n
            invariant
                n == boxes@.len(),
                n == centers@.len(),
                i <= n,
                items@.len() == i,
                forall|a: int| 0 <= a < i ==> (#[trigger] items@[a]).index == a && items@[a].bounds == boxes@[a]
                    && items@[a].center == centers@[a],
            decreases n - i,
        {
            items.push(BuildItem { index: i, bounds: boxes[i], center: centers[i] });
            i = i + 1;
        }
        let ghost bs = boxes@;
        proof {
            assert(item_boxes(items@) =~= bs);
            assert(indices_distinct(items@));
            assert(index_set(items@) =~= all_objects(n as nat)) by {
                assert forall|j: usize| all_objects(n as nat).contains(j) implies index_set(items@).contains(j) by {
                    assert(items@[j as int].index == j);
                }
            }
        }
        let root = build_node(items, Ghost(bs), Ghost(centers@), widest_axis);
        BVH { root: Some(root), boxes }
    }

    /// A containment query: the hit of an object whose box holds `p` and
    /// whose probe hits, searching the left subtree of a node before the
    /// right; nothing when every such probe misses.
    pub fn hit<T, F: Fn(usize) -> Option<T>>(&self, p: Vec3<i64>, probe: &F) -> (r: Option<T>)
        requires
            self.wf(),
            forall|i: usize| i < self.boxes_view().len() ==> #[trigger] probe.requires((i,)),
        ensures
            hit_outcome(all_objects(self.boxes_view().len()), self.boxes_view(), p, *probe, r),
            self.tree() matches Some(t) ==> t.search_outcome(p, *probe, r),
            self.tree() is None ==> r is None,
    {
        match &self.root {
            Some(root) => node_hit(root, Ghost(self.boxes@), p, probe),
            None => None,
        }
    }

    /// The box that covers every object, or none for an empty batch.
    pub fn bounding_box(&self) -> (r: Option<Aabb>)
        requires
            self.wf(),
        ensures
            r is None <==> self.boxes_view().len() == 0,
            r matches Some(b) ==> b == union_all(self.boxes_view()),
            r matches Some(b) ==> forall|i: int| 0 <= i < self.boxes_view().len() ==> encloses(b, #[trigger] self.boxes_view()[i]),
    {
        let n = self.boxes.len();
        match &self.root {
            Some(root) => {
                let b = match &**root {
                    BvhNode::Leaf { bounds, .. } => *bounds,
                    BvhNode::Inner { bounds, .. } => *bounds,
                };
                proof {
                    assert(b == root.bounds_spec());
                    assert(root.leaf_set() == all_objects(n as nat));
                    assert forall|i: int| 0 <= i < self.boxes@.len() implies encloses(b, #[trigger] self.boxes@[i]) by {
                        assert(all_objects(self.boxes@.len()).contains(i as usize));
                        lemma_leaf_enclosed(root, self.boxes@, i as usize);
                    }
                    lemma_leaf_set_nonempty(root);
                    let i = choose|i: usize| root.leaf_set().contains(i);
                    assert(all_objects(n as nat).contains(i));
                }
                Some(b)
            },
            None => None,
        }
    }
}

/// What a linear scan returns: the hit of the first object whose probe hits,
/// or nothing when every probe misses.
pub open spec fn scan_outcome<T, F: Fn(usize) -> Option<T>>(n: nat, probe: F, r: Option<T>) -> bool {
    match r {
        Some(v) => exists|i: usize|
            i < n && probe.ensures((i,), Some(v)) && forall|j: usize| j < i ==> #[trigger] probe.ensures((j,), None::<T>),
        None => forall|i: usize| i < n ==> #[trigger] probe.ensures((i,), None::<T>),
    }
}

/// Probes the objects `0..n` in order and returns the first hit.
pub fn first_hit<T, F: Fn(usize) -> Option<T>>(n: usize, probe: &F) -> (r: Option<T>)
    requires
        forall|i: usize| i < n ==> #[trigger] probe.requires((i,)),
    ensures
        scan_outcome(n as nat, *probe, r),
{
    let mut i: usize = 0;
    while i < n
        invariant
            i <= n,
            forall|j: usize| j < n ==> #[trigger] probe.requires((j,)),
            forall|j: usize| j < i ==> #[trigger] probe.ensures((j,), None::<T>),
        decreases n - i,
    {
        let r = probe(i);
        if r.is_some() {
            proof {
                assert(probe.ensures((i,), Some(r->Some_0)));
            }
            return r;
        }
        i = i + 1;
    }
    None
}

/// A containment query through the hierarchy finds a hit exactly when a
/// linear scan of the same batch does, whenever each object's box holds
/// every point at which its probe hits and the probe is a function of the
/// object alone; either hit comes from an object whose box holds the point,
/// and where at most one object is hit at the point both give the same hit.
pub proof fn lemma_bvh_agrees_with_scan<T, F: Fn(usize) -> Option<T>>(
    boxes: Seq<Aabb>,
    p: Vec3<i64>,
    probe: F,
    from_bvh: Option<T>,
    from_scan: Option<T>,
)
    requires
        forall|i: usize, v: T| i < boxes.len() && #[trigger] probe.ensures((i,), Some(v)) ==> contains_spec(boxes[i as int], p),
        forall|i: usize, a: Option<T>, b: Option<T>| #[trigger] probe.ensures((i,), a) && #[trigger] probe.ensures((i,), b) ==> a == b,
        hit_outcome(all_objects(boxes.len()), boxes, p, probe, from_bvh),
        scan_outcome(boxes.len(), probe, from_scan),
    ensures
        from_bvh is Some <==> from_scan is Some,
        (forall|i: usize, j: usize, v: T, w: T|
            #[trigger] probe.ensures((i,), Some(v)) && #[trigger] probe.ensures((j,), Some(w)) ==> i == j)
            ==> from_bvh == from_scan,
{
    if from_bvh is Some {
        let i = choose|i: usize| #[trigger] all_objects(boxes.len()).contains(i) && contains_spec(boxes[i as int], p) && probe.ensures((i,), from_bvh);
        if from_scan is None {
            assert(probe.ensures((i,), None::<T>));
        } else {
            let v = from_scan->Some_0;
            let k = choose|k: usize| k < boxes.len() && probe.ensures((k,), Some(v)) && forall|j: usize| j < k ==> #[trigger] probe.ensures((j,), None::<T>);
            if forall|i: usize, j: usize, v: T, w: T|
                #[trigger] probe.ensures((i,), Some(v)) && #[trigger] probe.ensures((j,), Some(w)) ==> i == j {
                assert(probe.ensures((i,), Some(from_bvh->Some_0)));
                assert(i == k);
            }
        }
    }
    if from_scan is Some {
        let v = from_scan->Some_0;
        let i = choose|i: usize| i < boxes.len() && probe.ensures((i,), Some(v)) && forall|j: usize| j < i ==> #[trigger] probe.ensures((j,), None::<T>);
        assert(contains_spec(boxes[i as int], p));
        assert(all_objects(boxes.len()).contains(i));
        if from_bvh is None {
            assert(probe.ensures((i,), None::<T>));
        }
    }
}

} // verus!
