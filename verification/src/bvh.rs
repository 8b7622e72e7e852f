//! The build of the bounding volume hierarchy over the bake triangles: its
//! in-place split step and the depth-first driver around it.
//!
//! A node owns the slice `indices[first .. first + count]` of triangle ids.
//! To split it, each triangle is classified as going to the left child or
//! not (its centroid lies below the split plane); the classification is
//! handed in as one flag per triangle id.
use vstd::prelude::*;

verus! {

broadcast use vstd::seq_lib::group_to_multiset_ensures;

/// Swapping two entries of a sequence keeps its multiset of values.
proof fn lemma_swap_keeps_multiset(s: Seq<u32>, i: int, j: int)
    requires
        0 <= i < s.len(),
        0 <= j < s.len(),
    ensures
        s.update(i, s[j]).update(j, s[i]).to_multiset() =~= s.to_multiset(),
{
    broadcast use vstd::multiset::group_multiset_axioms;
    broadcast use vstd::seq_lib::to_multiset_update;

    let s1 = s.update(i, s[j]);
    assert(s1.to_multiset() =~= s.to_multiset().insert(s[j]).remove(s[i]));
    if i == j {
        assert(s1.update(j, s[i]) =~= s);
    } else {
        assert(s1[j] == s[j]);
        assert(s1.update(j, s[i]).to_multiset() =~= s1.to_multiset().insert(s[i]).remove(s[j]));
    }
}

/// The front-to-back partition scan over positions `i .. j` of `s`: an id
/// that goes left stays and the scan moves on; any other id is swapped with
/// the last unscanned entry, which is scanned next. Gives the reordered ids
/// and the position where the scan met the end.
pub open spec fn partition_scan(s: Seq<u32>, i: int, j: int, goes_left: Seq<bool>) -> (
    Seq<u32>,
    int,
)
    decreases j - i,
{
    if i >= j {
        (s, i)
    } else if goes_left[s[i] as int] {
        partition_scan(s, i + 1, j, goes_left)
    } else {
        partition_scan(s.update(i, s[j - 1]).update(j - 1, s[i]), i, j - 1, goes_left)
    }
}

/// Reorders the triangle ids of the node slice `indices[first .. first + count]`
/// so that those whose flag in `goes_left` is set come first, and returns how
/// many they are. Scans from the front; a triangle that does not go left is
/// swapped with the last unclassified entry.
pub fn partition_range(
    indices: &mut Vec<u32>,
    first: u32,
    count: u32,
    goes_left: &[bool],
) -> (left_count: u32)
    requires
        first + count <= old(indices).len(),
        first + count <= u32::MAX,
        forall|k: int|
            first <= k < first + count ==> (#[trigger] old(indices)@[k]) < goes_left@.len(),
    ensures
        (final(indices)@, first + left_count) == partition_scan(
            old(indices)@,
            first as int,
            first + count,
            goes_left@,
        ),
        final(indices)@.len() == old(indices)@.len(),
        final(indices)@.to_multiset() == old(indices)@.to_multiset(),
        forall|k: int|
            0 <= k < final(indices)@.len() && !(first <= k < first + count)
                ==> #[trigger] final(indices)@[k] == old(indices)@[k],
        left_count <= count,
        forall|k: int|
            first <= k < first + left_count ==> goes_left@[#[trigger] final(indices)@[k] as int],
        forall|k: int|
            first + left_count <= k < first + count
                ==> !goes_left@[#[trigger] final(indices)@[k] as int],
{
    let end = first + count;
    let mut i = first;
    let mut j = end;
    while i < j
        invariant
            first <= i <= j <= end,
            end == first + count,
            end <= indices@.len(),
            indices@.len() == old(indices)@.len(),
            indices@.to_multiset() == old(indices)@.to_multiset(),
            forall|k: int|
                0 <= k < indices@.len() && !(first <= k < end) ==> #[trigger] indices@[k]
                    == old(indices)@[k],
            forall|k: int| first <= k < end ==> (#[trigger] indices@[k]) < goes_left@.len(),
            forall|k: int| first <= k < i ==> goes_left@[#[trigger] indices@[k] as int],
            forall|k: int| j <= k < end ==> !goes_left@[#[trigger] indices@[k] as int],
            partition_scan(indices@, i as int, j as int, goes_left@) == partition_scan(
                old(indices)@,
                first as int,
                end as int,
                goes_left@,
            ),
        decreases j - i,
    {
        proof {
            assert(first <= i < end);
        }
        let tri = indices[i as usize];
        if goes_left[tri as usize] {
            i = i + 1;
        } else {
            j = j - 1;
            let ghost before = indices@;
            let other = indices[j as usize];
            indices.set(i as usize, other);
            indices.set(j as usize, tri);
            proof {
                lemma_swap_keeps_multiset(before, i as int, j as int);
                assert(indices@ == before.update(i as int, before[j as int]).update(
                    j as int,
                    before[i as int],
                ));
            }
        }
    }
    i - first
}

/// A node's place in the tree: its children (`u32::MAX` for a leaf) and the
/// slice `first .. first + count` of triangle ids that a leaf owns (an
/// interior node owns none).
#[derive(Debug, Clone, Copy, PartialEq, Eq)]
pub struct NodeRange {
    pub left: u32,
    pub right: u32,
    pub first: u32,
    pub count: u32,
}

/// A node with no children.
pub open spec fn no_child() -> u32 {
    u32::MAX
}

impl NodeRange {
    /// The leaf owning triangle ids `first .. first + count`.
    pub open spec fn leaf_spec(first: u32, count: u32) -> NodeRange {
        NodeRange { left: no_child(), right: no_child(), first, count }
    }

    /// A leaf owning triangle ids `first .. first + count`.
    pub fn leaf(first: u32, count: u32) -> (n: Self)
        ensures
            n == (NodeRange { left: no_child(), right: no_child(), first, count }),
    {
        NodeRange { left: u32::MAX, right: u32::MAX, first, count }
    }
}

/// Leaves of at most this many triangles are not split.
pub fn max_leaf_size() -> (n: u32)
    ensures
        n == 4,
{
    4
}

/// Splits leaf `idx` after its slice was partitioned with `left_count`
/// triangles first. A split that would leave a side empty is not made (the
/// node stays a leaf and `None` comes back); otherwise two leaves are
/// appended, the first owning the left part and the second the rest, and
/// `idx` becomes their interior parent.
pub fn split_node(nodes: &mut Vec<NodeRange>, idx: u32, left_count: u32) -> (children: Option<
    (u32, u32),
>)
    requires
        idx < old(nodes)@.len(),
        old(nodes)@.len() + 2 <= u32::MAX,
        left_count <= old(nodes)@[idx as int].count,
        old(nodes)@[idx as int].first + old(nodes)@[idx as int].count <= u32::MAX,
    ensures
        ({
            let parent = old(nodes)@[idx as int];
            let n = old(nodes)@.len();
            if left_count == 0 || left_count == parent.count {
                &&& children is None
                &&& final(nodes)@ == old(nodes)@
            } else {
                &&& children == Some((n as u32, (n + 1) as u32))
                &&& final(nodes)@.len() == n + 2
                &&& final(nodes)@[n as int] == NodeRange {
                    left: no_child(),
                    right: no_child(),
                    first: parent.first,
                    count: left_count,
                }
                &&& final(nodes)@[n + 1int] == NodeRange {
                    left: no_child(),
                    right: no_child(),
                    first: (parent.first + left_count) as u32,
                    count: (parent.count - left_count) as u32,
                }
                &&& final(nodes)@[idx as int] == NodeRange {
                    left: n as u32,
                    right: (n + 1) as u32,
                    first: parent.first,
                    count: 0,
                }
                &&& forall|k: int|
                    0 <= k < n && k != idx ==> #[trigger] final(nodes)@[k] == old(nodes)@[k]
            }
        }),
{
    let parent = nodes[idx as usize];
    if left_count == 0 || left_count == parent.count {
        return None;
    }
    let left_idx = nodes.len() as u32;
    nodes.push(NodeRange::leaf(parent.first, left_count));
    let right_idx = nodes.len() as u32;
    nodes.push(NodeRange::leaf(parent.first + left_count, parent.count - left_count));
    nodes.set(
        idx as usize,
        NodeRange { left: left_idx, right: right_idx, first: parent.first, count: 0 },
    );
    Some((left_idx, right_idx))
}

/// Position `t` of the id list lies in the node's slice.
pub open spec fn owns(n: NodeRange, t: int) -> bool {
    n.first <= t < n.first + n.count
}

/// The two leaves a split makes own exactly the parent's slice between
/// them, side by side and both non-empty.
pub proof fn lemma_split_covers_parent(parent: NodeRange, left: NodeRange, right: NodeRange)
    requires
        left.first == parent.first,
        right.first == parent.first + left.count,
        left.count + right.count == parent.count,
        left.count > 0,
        right.count > 0,
    ensures
        forall|t: int| #[trigger] owns(parent, t) <==> (owns(left, t) || owns(right, t)),
        forall|t: int| !(#[trigger] owns(left, t) && owns(right, t)),
        left.count < parent.count && right.count < parent.count,
{
}


/// The triangle ids `0 .. n` in order.
pub open spec fn id_range(n: nat) -> Seq<u32> {
    Seq::new(n, |i: int| i as u32)
}

/// A node without children.
pub open spec fn is_leaf(node: NodeRange) -> bool {
    node.left == no_child()
}

/// Some node owns position `t` of the id list.
pub open spec fn has_owner(nodes: Seq<NodeRange>, t: int) -> bool {
    exists|k: int| 0 <= k < nodes.len() && #[trigger] owns(nodes[k], t)
}

/// Every position `0 .. n` of the id list is owned by exactly one node, and
/// no node owns a position outside it.
pub open spec fn covers_once(nodes: Seq<NodeRange>, n: int) -> bool {
    &&& forall|k: int, t: int|
        0 <= k < nodes.len() && #[trigger] owns(nodes[k], t) ==> 0 <= t < n
    &&& forall|t: int| 0 <= t < n ==> #[trigger] has_owner(nodes, t)
    &&& forall|k1: int, k2: int, t: int|
        0 <= k1 < nodes.len() && 0 <= k2 < nodes.len() && #[trigger] owns(nodes[k1], t)
            && #[trigger] owns(nodes[k2], t) ==> k1 == k2
}

/// The split decision `goes_left` sends every id of `node` to the same side.
pub open spec fn one_side(ids: Seq<u32>, node: NodeRange, goes_left: Seq<bool>) -> bool {
    ||| forall|t: int| #[trigger] owns(node, t) ==> goes_left[ids[t] as int]
    ||| forall|t: int| #[trigger] owns(node, t) ==> !goes_left[ids[t] as int]
}

/// A finished leaf: small enough, or the decision handed in for it could not
/// split it.
pub open spec fn settled(
    nodes: Seq<NodeRange>,
    ids: Seq<u32>,
    stuck: Map<int, Seq<bool>>,
    k: int,
) -> bool {
    is_leaf(nodes[k]) ==> (nodes[k].count <= 4 || (stuck.dom().contains(k) && one_side(
        ids,
        nodes[k],
        stuck[k],
    )))
}

/// An interior node made from leaf `parent` by a split after `left_count` ids.
pub open spec fn interior_of(parent: NodeRange, left: int, right: int) -> NodeRange {
    NodeRange { left: left as u32, right: right as u32, first: parent.first, count: 0 }
}

/// The invariant of a build: the ids are `0 .. n` each once; the leaves
/// cover the id list exactly once; interior nodes own nothing and point at
/// existing nodes; every split left a cut, the start of some non-empty
/// node, strictly inside `0 .. n`; waiting nodes are distinct leaves; every
/// other node is settled.
spec fn build_inv(
    nodes: Seq<NodeRange>,
    ids: Seq<u32>,
    pending: Seq<u32>,
    n: int,
    cuts: Set<int>,
    stuck: Map<int, Seq<bool>>,
) -> bool {
    &&& 0 <= n < 0x8000_0000
    &&& ids.len() == n
    &&& ids.to_multiset() == id_range(n as nat).to_multiset()
    &&& forall|t: int| 0 <= t < n ==> #[trigger] ids[t] < n
    &&& 1 <= nodes.len() <= u32::MAX
    &&& covers_once(nodes, n)
    &&& forall|k: int|
        0 <= k < nodes.len() && !is_leaf(#[trigger] nodes[k]) ==> {
            &&& nodes[k].count == 0
            &&& nodes[k].left < nodes.len()
            &&& nodes[k].right < nodes.len()
        }
    &&& cuts.finite()
    &&& forall|c: int| #[trigger] cuts.contains(c) ==> 1 <= c < n
    &&& nodes.len() == 1 + 2 * cuts.len()
    &&& forall|c: int| #[trigger]
        cuts.contains(c) ==> exists|k: int|
            0 <= k < nodes.len() && #[trigger] nodes[k].first == c && nodes[k].count >= 1
    &&& forall|k: int| #[trigger] stuck.dom().contains(k) ==> 0 <= k < nodes.len()
    &&& pending.no_duplicates()
    &&& forall|p: int|
        0 <= p < pending.len() ==> {
            &&& #[trigger] pending[p] < nodes.len()
            &&& is_leaf(nodes[pending[p] as int])
            &&& !stuck.dom().contains(pending[p] as int)
        }
    &&& forall|k: int|
        0 <= k < nodes.len() && !pending.contains(k as u32) ==> #[trigger] settled(
            nodes,
            ids,
            stuck,
            k,
        )
}

/// Interior node `k` splits its span between its two children: the left
/// child starts where `k` starts, the right one where the left one ends,
/// both spans are non-empty and they add up to the span of `k`. Both
/// children come after `k`.
pub open spec fn splits_span(nodes: Seq<NodeRange>, spans: Seq<nat>, k: int) -> bool {
    let l = nodes[k].left as int;
    let r = nodes[k].right as int;
    &&& k < l < nodes.len()
    &&& k < r < nodes.len()
    &&& nodes[l].first == nodes[k].first
    &&& nodes[r].first == nodes[k].first + spans[l]
    &&& spans[k] == spans[l] + spans[r]
    &&& spans[l] > 0
    &&& spans[r] > 0
}

/// The shape of the tree: node `k` spans the positions `first ..
/// first + spans[k]` of the id list; the root spans all `n`; a leaf spans
/// exactly the ids it owns; an interior node splits its span between its
/// children; with any triangle, every span is non-empty.
pub open spec fn tree_shape(nodes: Seq<NodeRange>, spans: Seq<nat>, n: int) -> bool {
    &&& spans.len() == nodes.len()
    &&& nodes.len() >= 1
    &&& nodes[0].first == 0
    &&& spans[0] == n
    &&& forall|k: int|
        0 <= k < nodes.len() && is_leaf(#[trigger] nodes[k]) ==> spans[k] == nodes[k].count
    &&& forall|k: int|
        0 <= k < nodes.len() && !is_leaf(#[trigger] nodes[k]) ==> splits_span(nodes, spans, k)
    &&& n > 0 ==> forall|k: int| 0 <= k < nodes.len() ==> #[trigger] spans[k] > 0
}

/// The whole build of a hierarchy over `n` triangles, node by node in
/// depth-first order, left child first. Each node waiting on the stack is a
/// leaf; the caller looks at the top one, decides for each of its triangles
/// whether it goes left, and hands the decision in.
pub struct BvhBuild {
    nodes: Vec<NodeRange>,
    indices: Vec<u32>,
    pending: Vec<u32>,
    triangle_count: u32,
    cuts: Ghost<Set<int>>,
    stuck: Ghost<Map<int, Seq<bool>>>,
    spans: Ghost<Seq<nat>>,
}

impl BvhBuild {
    /// The nodes made so far; node 0 is the root.
    pub closed spec fn node_seq(&self) -> Seq<NodeRange> {
        self.nodes@
    }

    /// The triangle ids, in the order the leaves own them.
    pub closed spec fn id_seq(&self) -> Seq<u32> {
        self.indices@
    }

    /// The leaves still to be looked at; the last is next.
    pub closed spec fn pending_seq(&self) -> Seq<u32> {
        self.pending@
    }

    /// For each leaf that a decision could not split, that decision.
    pub closed spec fn stuck_decisions(&self) -> Map<int, Seq<bool>> {
        self.stuck@
    }

    /// How many positions of the id list each node spans, from its `first`.
    pub closed spec fn span_seq(&self) -> Seq<nat> {
        self.spans@
    }

    /// How many triangles the hierarchy is built over.
    pub closed spec fn triangle_total(&self) -> nat {
        self.triangle_count as nat
    }

    /// The build's invariant.
    pub closed spec fn wf(&self) -> bool {
        build_inv(
            self.nodes@,
            self.indices@,
            self.pending@,
            self.triangle_count as int,
            self.cuts@,
            self.stuck@,
        ) && tree_shape(self.nodes@, self.spans@, self.triangle_count as int)
    }

    /// The build before any split: one leaf owning every triangle, waiting
    /// to be looked at when there is any triangle.
    pub fn new(triangle_count: u32) -> (b: Self)
        requires
            triangle_count < 0x8000_0000,
        ensures
            b.wf(),
            b.triangle_total() == triangle_count,
            b.node_seq() == seq![NodeRange::leaf_spec(0, triangle_count)],
            b.id_seq() == id_range(triangle_count as nat),
            b.pending_seq() == (if triangle_count > 0 {
                seq![0u32]
            } else {
                Seq::<u32>::empty()
            }),
            b.stuck_decisions() == Map::<int, Seq<bool>>::empty(),
            b.span_seq() == seq![triangle_count as nat],
    {
        let mut indices: Vec<u32> = Vec::with_capacity(triangle_count as usize);
        let mut i: u32 = 0;
        while i < triangle_count
            invariant
                i <= triangle_count,
                indices@ == id_range(i as nat),
            decreases triangle_count - i,
        {
            indices.push(i);
            i = i + 1;
            proof {
                assert(indices@ =~= id_range(i as nat));
            }
        }
        let mut nodes: Vec<NodeRange> = Vec::new();
        nodes.push(NodeRange::leaf(0, triangle_count));
        let mut pending: Vec<u32> = Vec::new();
        if triangle_count > 0 {
            pending.push(0);
        }
        let b = BvhBuild {
            nodes,
            indices,
            pending,
            triangle_count,
            cuts: Ghost(Set::empty()),
            stuck: Ghost(Map::empty()),
            spans: Ghost(Seq::<nat>::empty().push(triangle_count as nat)),
        };
        proof {
            let n = triangle_count as int;
            assert(b.nodes@ =~= seq![NodeRange::leaf_spec(0, triangle_count)]);
            assert forall|t: int| 0 <= t < n implies #[trigger] has_owner(b.nodes@, t) by {
                assert(owns(b.nodes@[0], t));
            }
            assert forall|k: int|
                0 <= k < b.nodes@.len() && !b.pending@.contains(
                    k as u32,
                ) implies #[trigger] settled(b.nodes@, b.indices@, b.stuck@, k) by {
                if triangle_count > 0 {
                    assert(b.pending@[0] == 0);
                }
            }
        }
        b
    }

    /// The next leaf to look at, if any is left.
    pub fn next_node(&self) -> (r: Option<u32>)
        ensures
            r == (if self.pending_seq().len() > 0 {
                Some(self.pending_seq().last())
            } else {
                None::<u32>
            }),
    {
        if self.pending.len() > 0 {
            Some(self.pending[self.pending.len() - 1])
        } else {
            None
        }
    }

    /// Node `idx`.
    pub fn node(&self, idx: u32) -> (n: NodeRange)
        requires
            idx < self.node_seq().len(),
        ensures
            n == self.node_seq()[idx as int],
    {
        self.nodes[idx as usize]
    }

    /// How many nodes there are so far.
    pub fn node_count(&self) -> (c: usize)
        ensures
            c == self.node_seq().len(),
    {
        self.nodes.len()
    }

    /// The triangle ids, in the order the leaves own them.
    pub fn indices(&self) -> (ids: &Vec<u32>)
        ensures
            ids@ == self.id_seq(),
    {
        &self.indices
    }

    /// Looks at the next leaf. A leaf of at most `max_leaf_size()` triangles
    /// stays as it is. A larger one has its ids partitioned by `goes_left`
    /// (indexed by triangle id); when both sides are non-empty it is split in
    /// two and both children wait to be looked at, the left one first,
    /// otherwise it stays a leaf and the decision is kept with it.
    pub fn process(&mut self, goes_left: &[bool])
        requires
            old(self).wf(),
            old(self).pending_seq().len() > 0,
            goes_left@.len() == old(self).triangle_total(),
        ensures
            final(self).wf(),
            final(self).triangle_total() == old(self).triangle_total(),
            forall|t: int|
                0 <= t < old(self).id_seq().len() && !owns(
                    old(self).node_seq()[old(self).pending_seq().last() as int],
                    t,
                ) ==> #[trigger] final(self).id_seq()[t] == old(self).id_seq()[t],
            ({
                let idx = old(self).pending_seq().last() as int;
                let node = old(self).node_seq()[idx];
                let rest = old(self).pending_seq().drop_last();
                let n = old(self).node_seq().len() as int;
                let scan = partition_scan(
                    old(self).id_seq(),
                    node.first as int,
                    node.first + node.count,
                    goes_left@,
                );
                let left_count = scan.1 - node.first;
                if node.count <= 4 {
                    &&& final(self).node_seq() == old(self).node_seq()
                    &&& final(self).id_seq() == old(self).id_seq()
                    &&& final(self).pending_seq() == rest
                    &&& final(self).stuck_decisions() == old(self).stuck_decisions()
                    &&& final(self).span_seq() == old(self).span_seq()
                } else if left_count == 0 || left_count == node.count {
                    &&& final(self).node_seq() == old(self).node_seq()
                    &&& final(self).id_seq() == scan.0
                    &&& final(self).pending_seq() == rest
                    &&& final(self).stuck_decisions() == old(self).stuck_decisions().insert(
                        idx,
                        goes_left@,
                    )
                    &&& final(self).span_seq() == old(self).span_seq()
                } else {
                    &&& final(self).node_seq() == old(self).node_seq().update(
                        idx,
                        interior_of(node, n, n + 1),
                    ).push(NodeRange::leaf_spec(node.first, left_count as u32)).push(
                        NodeRange::leaf_spec(
                            (node.first + left_count) as u32,
                            (node.count - left_count) as u32,
                        ),
                    )
                    &&& final(self).id_seq() == scan.0
                    &&& final(self).pending_seq() == rest.push((n + 1) as u32).push(n as u32)
                    &&& final(self).stuck_decisions() == old(self).stuck_decisions()
                    &&& final(self).span_seq() == old(self).span_seq().push(left_count as nat).push(
                        (node.count - left_count) as nat,
                    )
                }
            }),
    {
        let ghost old_nodes = self.nodes@;
        let ghost old_ids = self.indices@;
        let ghost old_pending = self.pending@;
        let ghost n = self.triangle_count as int;
        let idx = match self.pending.pop() {
            Some(v) => v,
            None => {
                return;
            },
        };
        proof {
            assert(self.pending@ =~= old_pending.drop_last());
        }
        let node = self.nodes[idx as usize];
        if node.count <= max_leaf_size() {
            proof {
                lemma_leaf_finished(
                    old_nodes,
                    old_ids,
                    old_ids,
                    old_pending,
                    n,
                    self.cuts@,
                    self.stuck@,
                    self.stuck@,
                );
            }
            return;
        }
        proof {
            assert(owns(node, node.first + node.count - 1));
            assert forall|k: int|
                node.first <= k < node.first + node.count implies (#[trigger] old_ids[k])
                < goes_left@.len() by {
                assert(owns(node, k));
            }
        }
        let left_count = partition_range(&mut self.indices, node.first, node.count, goes_left);
        proof {
            assert forall|t: int| 0 <= t < old_ids.len() && !owns(node, t) implies #[trigger] self.indices@[t] == old_ids[t] by {
                assert(!(node.first <= t < node.first + node.count));
            }
        }
        if left_count == 0 || left_count == node.count {
            let ghost old_stuck = self.stuck@;
            self.stuck = Ghost(self.stuck@.insert(idx as int, goes_left@));
            proof {
                if left_count == 0 {
                    assert forall|t: int| #[trigger] owns(node, t) implies !goes_left@[
                        self.indices@[t] as int] by {
                        assert(node.first + left_count <= t < node.first + node.count);
                    }
                } else {
                    assert forall|t: int| #[trigger] owns(node, t) implies goes_left@[
                        self.indices@[t] as int] by {
                        assert(node.first <= t < node.first + left_count);
                    }
                }
                assert(one_side(self.indices@, node, goes_left@));
                lemma_leaf_finished(
                    old_nodes,
                    old_ids,
                    self.indices@,
                    old_pending,
                    n,
                    self.cuts@,
                    old_stuck,
                    self.stuck@,
                );
            }
            return;
        }
        proof {
            lemma_room_for_split(
                old_nodes,
                old_ids,
                old_pending,
                n,
                self.cuts@,
                self.stuck@,
                left_count as int,
            );
        }
        let ghost m = old_nodes.len() as int;
        let ghost old_cuts = self.cuts@;
        let children = split_node(&mut self.nodes, idx, left_count);
        proof {
            assert(self.nodes@ =~= old_nodes.update(idx as int, interior_of(node, m, m + 1)).push(
                NodeRange::leaf_spec(node.first, left_count),
            ).push(
                NodeRange::leaf_spec(
                    (node.first + left_count) as u32,
                    (node.count - left_count) as u32,
                ),
            ));
        }
        self.cuts = Ghost(self.cuts@.insert(node.first + left_count));
        let ghost old_spans = self.spans@;
        self.spans = Ghost(
            self.spans@.push(left_count as nat).push((node.count - left_count) as nat),
        );
        let (left_idx, right_idx) = match children {
            Some(c) => c,
            None => {
                return;
            },
        };
        self.pending.push(right_idx);
        self.pending.push(left_idx);
        proof {
            lemma_split_keeps_inv(
                old_nodes,
                self.nodes@,
                old_ids,
                self.indices@,
                old_pending,
                n,
                old_cuts,
                self.stuck@,
                left_count as int,
            );
            lemma_split_keeps_shape(
                old_nodes,
                self.nodes@,
                old_spans,
                n,
                idx as int,
                left_count as int,
            );
        }
    }

    /// The finished tree and the id order its leaves own.
    pub fn into_parts(self) -> (parts: (Vec<NodeRange>, Vec<u32>))
        ensures
            parts.0@ == self.node_seq(),
            parts.1@ == self.id_seq(),
    {
        (self.nodes, self.indices)
    }
}

/// Finishing the waiting leaf on top (leaving it a leaf, with the ids
/// reordered only inside it and its decision recorded or not) keeps the
/// invariant.
proof fn lemma_leaf_finished(
    nodes: Seq<NodeRange>,
    ids: Seq<u32>,
    ids2: Seq<u32>,
    pending: Seq<u32>,
    n: int,
    cuts: Set<int>,
    stuck: Map<int, Seq<bool>>,
    stuck2: Map<int, Seq<bool>>,
)
    requires
        build_inv(nodes, ids, pending, n, cuts, stuck),
        pending.len() > 0,
        ids2.len() == ids.len(),
        ids2.to_multiset() == ids.to_multiset(),
        forall|t: int|
            0 <= t < ids.len() && !owns(nodes[pending.last() as int], t) ==> #[trigger] ids2[t]
                == ids[t],
        forall|k: int|
            k != pending.last() as int ==> (#[trigger] stuck2.dom().contains(k)
                == stuck.dom().contains(k)) && (stuck.dom().contains(k) ==> stuck2[k]
                == stuck[k]),
        settled(nodes, ids2, stuck2, pending.last() as int),
    ensures
        build_inv(nodes, ids2, pending.drop_last(), n, cuts, stuck2),
{
    let idx = pending.last() as int;
    let rest = pending.drop_last();
    lemma_ids_below(ids2, n);
    assert forall|p: int| 0 <= p < rest.len() implies {
        &&& #[trigger] rest[p] < nodes.len()
        &&& is_leaf(nodes[rest[p] as int])
        &&& !stuck2.dom().contains(rest[p] as int)
    } by {
        assert(rest[p] == pending[p]);
        assert(pending[p] != pending[pending.len() - 1]);
    }
    assert forall|k: int|
        0 <= k < nodes.len() && !rest.contains(k as u32) implies #[trigger] settled(
        nodes,
        ids2,
        stuck2,
        k,
    ) by {
        if k != idx {
            if pending.contains(k as u32) {
                let p = choose|p: int| 0 <= p < pending.len() && pending[p] == k as u32;
                assert(p != pending.len() - 1);
                assert(rest[p] == k as u32);
            }
            assert(settled(nodes, ids, stuck, k));
            lemma_other_leaf_kept(nodes, ids, ids2, n, idx, k);
            assert(stuck2.dom().contains(k) == stuck.dom().contains(k));
            if stuck.dom().contains(k) {
                assert(stuck2[k] == stuck[k]);
                if one_side(ids, nodes[k], stuck[k]) {
                    assert(one_side(ids2, nodes[k], stuck[k]));
                }
            }
        }
    }
}

/// Ids that only moved inside node `idx` leave every other node's ids as
/// they were.
proof fn lemma_other_leaf_kept(
    nodes: Seq<NodeRange>,
    ids: Seq<u32>,
    ids2: Seq<u32>,
    n: int,
    idx: int,
    k: int,
)
    requires
        covers_once(nodes, n),
        ids.len() == n,
        ids2.len() == n,
        0 <= idx < nodes.len(),
        0 <= k < nodes.len(),
        k != idx,
        forall|t: int| 0 <= t < n && !owns(nodes[idx], t) ==> #[trigger] ids2[t] == ids[t],
    ensures
        forall|t: int| #[trigger] owns(nodes[k], t) ==> ids2[t] == ids[t],
        forall|st: Seq<bool>| one_side(ids, nodes[k], st) ==> one_side(ids2, nodes[k], st),
{
    assert forall|t: int| #[trigger] owns(nodes[k], t) implies ids2[t] == ids[t] by {
        if owns(nodes[idx], t) {
            assert(k == idx);
        }
    }
    assert forall|st: Seq<bool>| one_side(ids, nodes[k], st) implies one_side(
        ids2,
        nodes[k],
        st,
    ) by {
        if forall|t: int| #[trigger] owns(nodes[k], t) ==> st[ids[t] as int] {
            assert forall|t: int| #[trigger] owns(nodes[k], t) implies st[ids2[t] as int] by {
                assert(ids2[t] == ids[t]);
            }
        } else {
            assert forall|t: int| #[trigger] owns(nodes[k], t) implies !st[ids2[t] as int] by {
                assert(ids2[t] == ids[t]);
            }
        }
    }
}

/// Ids that are a rearrangement of `0 .. n` are all below `n`.
proof fn lemma_ids_below(ids: Seq<u32>, n: int)
    requires
        0 <= n,
        ids.to_multiset() == id_range(n as nat).to_multiset(),
    ensures
        forall|t: int| 0 <= t < ids.len() ==> #[trigger] ids[t] < n,
{
    assert forall|t: int| 0 <= t < ids.len() implies #[trigger] ids[t] < n by {
        assert(ids.contains(ids[t]));
        assert(ids.to_multiset().count(ids[t]) > 0);
        assert(id_range(n as nat).contains(ids[t]));
        let i = choose|i: int| 0 <= i < n && #[trigger] id_range(n as nat)[i] == ids[t];
        assert(id_range(n as nat)[i] == i as u32);
    }
}

/// A split of the waiting leaf on top after `lc` ids, with both sides
/// non-empty, cuts a new position and leaves room for two more nodes.
proof fn lemma_room_for_split(
    nodes: Seq<NodeRange>,
    ids: Seq<u32>,
    pending: Seq<u32>,
    n: int,
    cuts: Set<int>,
    stuck: Map<int, Seq<bool>>,
    lc: int,
)
    requires
        build_inv(nodes, ids, pending, n, cuts, stuck),
        pending.len() > 0,
        0 < lc < nodes[pending.last() as int].count,
    ensures
        !cuts.contains(nodes[pending.last() as int].first + lc),
        1 <= nodes[pending.last() as int].first + lc < n,
        cuts.len() + 1 <= n - 1,
        nodes.len() + 2 <= u32::MAX,
{
    let idx = pending.last() as int;
    let node = nodes[idx];
    let cut = node.first + lc;
    assert(pending[pending.len() - 1] == pending.last());
    assert(owns(node, cut));
    assert(owns(node, node.first + node.count - 1));
    if cuts.contains(cut) {
        let k = choose|k: int| 0 <= k < nodes.len() && #[trigger] nodes[k].first == cut && nodes[k].count >= 1;
        assert(owns(nodes[k], cut));
        assert(k == idx);
    }
    let range = vstd::set_lib::set_int_range(1, n);
    vstd::set_lib::lemma_int_range(1, n);
    assert(cuts.insert(cut).subset_of(range));
    vstd::set_lib::lemma_len_subset(cuts.insert(cut), range);
}

/// Splitting the waiting leaf on top in two, with both children waiting in
/// its place, the left one on top, keeps the invariant.
proof fn lemma_split_keeps_inv(
    nodes: Seq<NodeRange>,
    nodes2: Seq<NodeRange>,
    ids: Seq<u32>,
    ids2: Seq<u32>,
    pending: Seq<u32>,
    n: int,
    cuts: Set<int>,
    stuck: Map<int, Seq<bool>>,
    lc: int,
)
    requires
        build_inv(nodes, ids, pending, n, cuts, stuck),
        pending.len() > 0,
        0 < lc < nodes[pending.last() as int].count,
        nodes.len() + 2 <= u32::MAX,
        !cuts.contains(nodes[pending.last() as int].first + lc),
        1 <= nodes[pending.last() as int].first + lc < n,
        cuts.len() + 1 <= n - 1,
        ids2.len() == ids.len(),
        ids2.to_multiset() == ids.to_multiset(),
        forall|t: int|
            0 <= t < ids.len() && !owns(nodes[pending.last() as int], t) ==> #[trigger] ids2[t]
                == ids[t],
        nodes2 == nodes.update(
            pending.last() as int,
            interior_of(nodes[pending.last() as int], nodes.len() as int, nodes.len() as int + 1),
        ).push(NodeRange::leaf_spec(nodes[pending.last() as int].first, lc as u32)).push(
            NodeRange::leaf_spec(
                (nodes[pending.last() as int].first + lc) as u32,
                (nodes[pending.last() as int].count - lc) as u32,
            ),
        ),
    ensures
        build_inv(
            nodes2,
            ids2,
            pending.drop_last().push((nodes.len() + 1) as u32).push(nodes.len() as u32),
            n,
            cuts.insert(nodes[pending.last() as int].first + lc),
            stuck,
        ),
{
    let idx = pending.last() as int;
    let node = nodes[idx];
    let m = nodes.len() as int;
    let left = nodes2[m];
    let right = nodes2[m + 1];
    let cut = node.first + lc;
    let cuts2 = cuts.insert(cut);
    let rest = pending.drop_last();
    let pending2 = rest.push((m + 1) as u32).push(m as u32);
    assert(pending[pending.len() - 1] == pending.last());
    assert(owns(node, node.first + node.count - 1));
    lemma_ids_below(ids2, n);
    lemma_split_covers_parent(node, left, right);
    // Every position keeps exactly one owner.
    assert forall|k: int, t: int|
        0 <= k < nodes2.len() && #[trigger] owns(nodes2[k], t) implies 0 <= t < n by {
        if k < m && k != idx {
            assert(nodes2[k] == nodes[k]);
        } else {
            assert(owns(node, t));
        }
    }
    assert forall|t: int| 0 <= t < n implies #[trigger] has_owner(nodes2, t) by {
        assert(has_owner(nodes, t));
        let k = choose|k: int| 0 <= k < nodes.len() && #[trigger] owns(nodes[k], t);
        if k == idx {
            if owns(left, t) {
                assert(owns(nodes2[m], t));
            } else {
                assert(owns(nodes2[m + 1], t));
            }
        } else {
            assert(nodes2[k] == nodes[k]);
            assert(owns(nodes2[k], t));
        }
    }
    assert forall|k1: int, k2: int, t: int|
        0 <= k1 < nodes2.len() && 0 <= k2 < nodes2.len() && #[trigger] owns(nodes2[k1], t)
            && #[trigger] owns(nodes2[k2], t) implies k1 == k2 by {
        let g1 = if k1 >= m { idx } else { k1 };
        let g2 = if k2 >= m { idx } else { k2 };
        if k1 < m && k1 != idx {
            assert(nodes2[k1] == nodes[k1]);
        }
        if k2 < m && k2 != idx {
            assert(nodes2[k2] == nodes[k2]);
        }
        assert(owns(nodes[g1], t));
        assert(owns(nodes[g2], t));
    }
    assert(covers_once(nodes2, n));
    assert forall|k: int|
        0 <= k < nodes2.len() && !is_leaf(#[trigger] nodes2[k]) implies {
        &&& nodes2[k].count == 0
        &&& nodes2[k].left < nodes2.len()
        &&& nodes2[k].right < nodes2.len()
    } by {
        if k < m && k != idx {
            assert(nodes2[k] == nodes[k]);
        }
    }
    assert forall|c: int| #[trigger] cuts2.contains(c) implies exists|k: int|
        0 <= k < nodes2.len() && #[trigger] nodes2[k].first == c && nodes2[k].count >= 1 by {
        if c == cut {
            assert(nodes2[m + 1].first == c);
        } else {
            let k = choose|k: int|
                0 <= k < nodes.len() && #[trigger] nodes[k].first == c && nodes[k].count >= 1;
            if k == idx {
                assert(nodes2[m].first == c);
            } else {
                assert(nodes2[k] == nodes[k]);
            }
        }
    }
    assert(rest.no_duplicates()) by {
        assert forall|i: int, j: int| 0 <= i < rest.len() && 0 <= j < rest.len() && i != j implies rest[i] != rest[j] by {
            assert(rest[i] == pending[i] && rest[j] == pending[j]);
        }
    }
    assert forall|p: int| 0 <= p < rest.len() implies #[trigger] rest[p] < m && rest[p] != idx as u32 by {
        assert(rest[p] == pending[p]);
        assert(pending[p] != pending[pending.len() - 1]);
    }
    assert(pending2.no_duplicates()) by {
        assert forall|i: int, j: int| 0 <= i < pending2.len() && 0 <= j < pending2.len() && i != j implies pending2[i] != pending2[j] by {
            if i < rest.len() {
                assert(pending2[i] == rest[i]);
            }
            if j < rest.len() {
                assert(pending2[j] == rest[j]);
            }
        }
    }
    assert forall|p: int| 0 <= p < pending2.len() implies {
        &&& #[trigger] pending2[p] < nodes2.len()
        &&& is_leaf(nodes2[pending2[p] as int])
        &&& !stuck.dom().contains(pending2[p] as int)
    } by {
        if p < rest.len() {
            assert(pending2[p] == rest[p]);
            assert(rest[p] == pending[p]);
            assert(nodes2[pending2[p] as int] == nodes[pending[p] as int]);
        } else {
            assert(pending2[p] == m || pending2[p] == m + 1);
        }
    }
    assert forall|k: int|
        0 <= k < nodes2.len() && !pending2.contains(k as u32) implies #[trigger] settled(
        nodes2,
        ids2,
        stuck,
        k,
    ) by {
        if k == m || k == m + 1 {
            assert(pending2[pending2.len() - 1] == m as u32);
            assert(pending2[pending2.len() - 2] == (m + 1) as u32);
        } else if k != idx {
            assert(nodes2[k] == nodes[k]);
            if pending.contains(k as u32) {
                let p = choose|p: int| 0 <= p < pending.len() && pending[p] == k as u32;
                assert(p != pending.len() - 1);
                assert(pending2[p] == k as u32);
            }
            assert(settled(nodes, ids, stuck, k));
            lemma_other_leaf_kept(nodes, ids, ids2, n, idx, k);
        }
    }
    assert forall|k: int| #[trigger] stuck.dom().contains(k) implies 0 <= k < nodes2.len() by {}
}

/// Splitting a leaf in two keeps the shape of the tree.
proof fn lemma_split_keeps_shape(
    nodes: Seq<NodeRange>,
    nodes2: Seq<NodeRange>,
    spans: Seq<nat>,
    n: int,
    idx: int,
    lc: int,
)
    requires
        tree_shape(nodes, spans, n),
        0 <= idx < nodes.len(),
        is_leaf(nodes[idx]),
        0 < lc < nodes[idx].count,
        nodes[idx].first + nodes[idx].count <= u32::MAX,
        nodes.len() + 2 <= u32::MAX,
        nodes2 == nodes.update(
            idx,
            interior_of(nodes[idx], nodes.len() as int, nodes.len() as int + 1),
        ).push(NodeRange::leaf_spec(nodes[idx].first, lc as u32)).push(
            NodeRange::leaf_spec(
                (nodes[idx].first + lc) as u32,
                (nodes[idx].count - lc) as u32,
            ),
        ),
    ensures
        tree_shape(
            nodes2,
            spans.push(lc as nat).push((nodes[idx].count - lc) as nat),
            n,
        ),
{
    let m = nodes.len() as int;
    let node = nodes[idx];
    let spans2 = spans.push(lc as nat).push((node.count - lc) as nat);
    assert(nodes2[0].first == 0) by {
        if idx != 0 {
            assert(nodes2[0] == nodes[0]);
        }
    }
    assert forall|k: int|
        0 <= k < nodes2.len() && is_leaf(#[trigger] nodes2[k]) implies spans2[k]
        == nodes2[k].count by {
        if k < m {
            assert(k != idx);
            assert(nodes2[k] == nodes[k]);
        }
    }
    assert forall|k: int|
        0 <= k < nodes2.len() && !is_leaf(#[trigger] nodes2[k]) implies splits_span(
        nodes2,
        spans2,
        k,
    ) by {
        if k == idx {
            assert(spans[idx] == node.count);
        } else {
            assert(k < m);
            assert(nodes2[k] == nodes[k]);
            assert(splits_span(nodes, spans, k));
            let l = nodes[k].left as int;
            let r = nodes[k].right as int;
            if l != idx {
                assert(nodes2[l] == nodes[l]);
            }
            if r != idx {
                assert(nodes2[r] == nodes[r]);
            }
        }
    }
    if n > 0 {
        assert forall|k: int| 0 <= k < nodes2.len() implies #[trigger] spans2[k] > 0 by {
            if k < m {
                assert(spans2[k] == spans[k]);
            }
        }
    }
}

/// The shape of any build: the root spans the whole id list; each interior
/// node owns no ids and splits its span into two non-empty parts, the left
/// child's first, between two later nodes; each leaf spans exactly the ids it
/// owns, and with any triangle at least one.
pub proof fn lemma_build_tree_shape(b: BvhBuild)
    requires
        b.wf(),
    ensures
        b.node_seq()[0].first == 0,
        b.span_seq()[0] == b.triangle_total(),
        forall|k: int|
            0 <= k < b.node_seq().len() && !is_leaf(#[trigger] b.node_seq()[k]) ==> {
                &&& b.node_seq()[k].count == 0
                &&& splits_span(b.node_seq(), b.span_seq(), k)
            },
        forall|k: int|
            0 <= k < b.node_seq().len() && is_leaf(#[trigger] b.node_seq()[k]) ==> {
                &&& b.span_seq()[k] == b.node_seq()[k].count
                &&& b.triangle_total() > 0 ==> b.node_seq()[k].count >= 1
            },
{
    assert forall|k: int|
        0 <= k < b.node_seq().len() && is_leaf(#[trigger] b.node_seq()[k]) implies {
        &&& b.span_seq()[k] == b.node_seq()[k].count
        &&& b.triangle_total() > 0 ==> b.node_seq()[k].count >= 1
    } by {
        if b.triangle_total() > 0 {
            assert(b.span_seq()[k] > 0);
        }
    }
}

/// A finished build is a partition of the triangles: the ids are `0 .. n`
/// each once, every position of the id list belongs to exactly one leaf,
/// and every leaf holds at most `max_leaf_size()` ids unless the decision
/// handed in for it sent all of them to one side.
pub proof fn lemma_finished_build_partitions(b: BvhBuild)
    requires
        b.wf(),
        b.pending_seq().len() == 0,
    ensures
        b.id_seq().to_multiset() == id_range(b.triangle_total()).to_multiset(),
        covers_once(b.node_seq(), b.triangle_total() as int),
        forall|k: int|
            0 <= k < b.node_seq().len() && is_leaf(#[trigger] b.node_seq()[k]) ==> (
            b.node_seq()[k].count <= 4 || (b.stuck_decisions().dom().contains(k) && one_side(
                b.id_seq(),
                b.node_seq()[k],
                b.stuck_decisions()[k],
            ))),
        forall|k: int|
            0 <= k < b.node_seq().len() && !is_leaf(#[trigger] b.node_seq()[k]) ==> b.node_seq()[k].count == 0,
{
    assert forall|k: int|
        0 <= k < b.node_seq().len() && is_leaf(#[trigger] b.node_seq()[k]) implies (
    b.node_seq()[k].count <= 4 || (b.stuck_decisions().dom().contains(k) && one_side(
        b.id_seq(),
        b.node_seq()[k],
        b.stuck_decisions()[k],
    ))) by {
        assert(!b.pending_seq().contains(k as u32));
        assert(settled(b.node_seq(), b.id_seq(), b.stuck_decisions(), k));
    }
}
} // verus!
