//! The in-memory index of an octree and breadth-first traversal of its nodes.
use std::collections::HashMap;
use std::collections::VecDeque;
use vstd::prelude::*;

use crate::encoding::{Cube, PositionEncoding};
use crate::node_id::{
    bounding_cube_spec, edge_at, lemma_child_of_parent, lemma_child_wf, root_id, lemma_parent_of_child, lemma_parent_wf,
    lemma_pow8_bound, lemma_pow8_monotone, pow8, ChildIndex, NodeId, MAX_LEVEL,
};
use crate::node_io::{
    decode_colors, decode_positions, decodes, decodes_colors, width_spec, NodeError,
};
use crate::tile::Rgb;

verus! {

broadcast use vstd::std_specs::hash::group_hash_axioms;

impl NodeId {
    /// A key that tells cells apart across levels: `8^level + index`.
    pub open spec fn key_spec(self) -> nat {
        pow8(self.level as nat) + self.index as nat
    }

    pub fn key(&self) -> (r: u64)
        requires
            self.wf(),
        ensures
            r == self.key_spec(),
    {
        proof {
            lemma_pow8_bound(self.level as nat);
        }
        let mut p: u64 = 1;
        let mut l: u8 = 0;
        while l < self.level
            invariant
                l <= self.level <= MAX_LEVEL,
                p == pow8(l as nat),
            decreases self.level - l,
        {
            proof {
                lemma_pow8_bound((l + 1) as nat);
            }
            p = p * 8;
            l = l + 1;
        }
        p + self.index
    }
}

proof fn lemma_key_injective(a: NodeId, b: NodeId)
    requires
        a.wf(),
        b.wf(),
    ensures
        a.key_spec() == b.key_spec() ==> a == b,
        a.key_spec() < 0x1_0000_0000_0000_0000,
{
    lemma_pow8_bound(a.level as nat);
    lemma_pow8_bound(b.level as nat);
    if a.key_spec() == b.key_spec() && a.level != b.level {
        let (lo, hi) = if a.level < b.level {
            (a, b)
        } else {
            (b, a)
        };
        lemma_pow8_monotone((lo.level + 1) as nat, hi.level as nat);
        assert(pow8((lo.level + 1) as nat) == 8 * pow8(lo.level as nat));
        assert(false);
    }
}

/// Which nodes an octree holds and how many points each stores.
pub struct Octree {
    nodes: HashMap<u64, u64>,
}

impl Octree {
    /// The number of points of each populated node, by node key.
    pub closed spec fn nodes_spec(&self) -> Map<u64, u64> {
        self.nodes@
    }

    pub open spec fn has_node(&self, id: NodeId) -> bool {
        self.nodes_spec().contains_key(id.key_spec() as u64)
    }

    /// Every stored node has at least one point, and the parent of every stored node is stored.
    pub open spec fn wf(&self) -> bool {
        &&& forall|k: u64| #[trigger] self.nodes_spec().contains_key(k) ==> self.nodes_spec()[k] > 0
        &&& forall|id: NodeId|
            id.wf() && id.level > 0 && #[trigger] self.has_node(id) ==> self.has_node(
                id.parent_spec(),
            )
    }

    /// An index without nodes.
    pub fn new() -> (r: Octree)
        ensures
            r.wf(),
            r.nodes_spec() == Map::<u64, u64>::empty(),
    {
        Octree { nodes: HashMap::new() }
    }

    /// Records that `id` holds `num_points` points; a node without points is not stored. A node
    /// can only be added below a stored parent, and only removed when none of its children is
    /// stored.
    pub fn set_num_points(&mut self, id: &NodeId, num_points: u64)
        requires
            old(self).wf(),
            id.wf(),
            num_points > 0 && id.level > 0 ==> old(self).has_node(id.parent_spec()),
            num_points == 0 && id.level < MAX_LEVEL ==> forall|c: nat|
                c < 8 ==> !#[trigger] old(self).has_node(id.child_spec(c)),
        ensures
            final(self).wf(),
            num_points > 0 ==> final(self).nodes_spec() == old(self).nodes_spec().insert(
                id.key_spec() as u64,
                num_points,
            ),
            num_points == 0 ==> final(self).nodes_spec() == old(self).nodes_spec().remove(
                id.key_spec() as u64,
            ),
    {
        let k = id.key();
        if num_points > 0 {
            self.nodes.insert(k, num_points);
        } else {
            self.nodes.remove(&k);
        }
        assert forall|j: u64| #[trigger] self.nodes_spec().contains_key(j) implies self.nodes_spec()[j]
            > 0 by {
            if j != k {
                assert(old(self).nodes_spec().contains_key(j));
            }
        }
        assert forall|m: NodeId|
            m.wf() && m.level > 0 && #[trigger] self.has_node(m) implies self.has_node(
            m.parent_spec(),
        ) by {
            lemma_key_injective(m, *id);
            lemma_parent_wf(m);
            lemma_key_injective(m.parent_spec(), *id);
            if num_points == 0 {
                assert(old(self).has_node(m));
                if m.parent_spec() == *id {
                    lemma_child_of_parent(m);
                    assert(old(self).has_node(id.child_spec(m.index as nat % 8)));
                }
            } else if m != *id {
                assert(old(self).has_node(m));
            }
        }
    }

    pub fn contains(&self, id: &NodeId) -> (r: bool)
        requires
            id.wf(),
        ensures
            r == self.has_node(*id),
    {
        let k = id.key();
        self.nodes.contains_key(&k)
    }

    /// The number of points stored in `id`; zero for a node that is not in the index.
    pub fn num_points(&self, id: &NodeId) -> (r: u64)
        requires
            id.wf(),
        ensures
            self.has_node(*id) ==> r == self.nodes_spec()[id.key_spec() as u64],
            !self.has_node(*id) ==> r == 0,
    {
        let k = id.key();
        match self.nodes.get(&k) {
            Some(n) => *n,
            None => 0,
        }
    }
}

/// In a well-formed index every ancestor of a stored node is stored, the root above all.
pub proof fn lemma_root_present(octree: &Octree, id: NodeId)
    requires
        octree.wf(),
        id.wf(),
        octree.has_node(id),
    ensures
        octree.has_node(root_id()),
    decreases id.level,
{
    if id.level > 0 {
        lemma_parent_wf(id);
        lemma_root_present(octree, id.parent_spec());
    } else {
        assert(pow8(0) == 1);
        assert(id == root_id());
    }
}

/// What a reader needs besides a node's own data: the cube of the root and the resolution the
/// octree was built with.
#[derive(Clone, Copy, Debug)]
pub struct OctreeMeta {
    pub root: Cube,
    pub resolution: u64,
}

impl OctreeMeta {
    pub open spec fn wf(self) -> bool {
        self.root.wf() && self.resolution > 0
    }

    /// The encoding of the positions of node `id`, which follows from its cube.
    pub open spec fn encoding_spec(self, id: NodeId) -> PositionEncoding {
        PositionEncoding::select_spec(
            bounding_cube_spec(self.root, id.level as nat, id.index as nat).edge as nat,
            self.resolution as nat,
        )
    }
}

/// The decoded points of one node: positions and colors, in file order.
pub struct NodeData {
    pub positions: Vec<[i64; 3]>,
    pub colors: Vec<Rgb>,
}

impl Octree {
    /// The number of points the index records for `id`; zero for a node it does not hold.
    pub open spec fn num_points_spec(&self, id: NodeId) -> nat {
        if self.has_node(id) {
            self.nodes_spec()[id.key_spec() as u64] as nat
        } else {
            0
        }
    }
}

/// Decodes node `id` from its position blob and its color blob. The number of points comes from
/// the index, the cube and encoding from the node's place in the tree. A node without points reads
/// as empty whatever its blobs. Otherwise it fails with `UnknownAttribute` when there is no color
/// blob, with `UnquantizedPositions` for a node stored as 32-bit floats, and with `MalformedData`
/// when a blob is too short.
pub fn node_points(
    octree: &Octree,
    meta: &OctreeMeta,
    id: &NodeId,
    position_bytes: &Vec<u8>,
    color_bytes: Option<&Vec<u8>>,
) -> (r: Result<NodeData, NodeError>)
    requires
        meta.wf(),
        id.wf(),
        edge_at(meta.root.edge as nat, id.level as nat) > 0,
    ensures
        ({
            let cube = bounding_cube_spec(meta.root, id.level as nat, id.index as nat);
            let enc = meta.encoding_spec(*id);
            let n = octree.num_points_spec(*id);
            &&& n == 0 ==> r is Ok && r->Ok_0.positions@.len() == 0 && r->Ok_0.colors@.len() == 0
            &&& n > 0 && color_bytes is None ==> r == Err::<NodeData, NodeError>(
                NodeError::UnknownAttribute,
            )
            &&& n > 0 && color_bytes is Some && enc == PositionEncoding::Float32 ==> r == Err::<
                NodeData,
                NodeError,
            >(NodeError::UnquantizedPositions)
            &&& n > 0 && color_bytes is Some && enc != PositionEncoding::Float32 ==> {
                &&& (3 * n * width_spec(enc) > position_bytes@.len() || 3 * n
                    > color_bytes->Some_0@.len()) <==> r == Err::<NodeData, NodeError>(
                    NodeError::MalformedData,
                )
                &&& r is Ok || r == Err::<NodeData, NodeError>(NodeError::MalformedData)
            }
            &&& r is Ok ==> {
                &&& r->Ok_0.positions@.len() == n
                &&& r->Ok_0.colors@.len() == n
                &&& n > 0 ==> decodes(r->Ok_0.positions@, position_bytes@, cube, enc)
                    && decodes_colors(r->Ok_0.colors@, color_bytes->Some_0@)
            }
        }),
{
    let n = octree.num_points(id);
    if n == 0 {
        return Ok(NodeData { positions: Vec::new(), colors: Vec::new() });
    }
    let color_bytes = match color_bytes {
        Some(c) => c,
        None => {
            return Err(NodeError::UnknownAttribute);
        },
    };
    let cube = id.find_bounding_cube(&meta.root);
    let enc = PositionEncoding::new(&cube, meta.resolution);
    if let PositionEncoding::Float32 = enc {
        return Err(NodeError::UnquantizedPositions);
    }
    let len = position_bytes.len();
    let clen = color_bytes.len();
    if n > usize::MAX as u64 {
        assert(3 * n * width_spec(enc) > len);
        return Err(NodeError::MalformedData);
    }
    let positions = match decode_positions(position_bytes, n as usize, &cube, enc) {
        Ok(p) => p,
        Err(e) => {
            return Err(e);
        },
    };
    let colors = match decode_colors(color_bytes, n as usize) {
        Ok(c) => c,
        Err(e) => {
            return Err(e);
        },
    };
    Ok(NodeData { positions, colors })
}

/// The populated children of `id` among octants `0..i`, in octant order.
pub open spec fn children_upto(octree: &Octree, id: NodeId, i: nat) -> Seq<NodeId>
    decreases i,
{
    if i == 0 {
        Seq::empty()
    } else {
        let prev = children_upto(octree, id, (i - 1) as nat);
        let c = id.child_spec((i - 1) as nat);
        if octree.has_node(c) {
            prev.push(c)
        } else {
            prev
        }
    }
}

/// The populated children of `id`, in octant order; none below the deepest level.
pub open spec fn populated_children(octree: &Octree, id: NodeId) -> Seq<NodeId> {
    if id.level < MAX_LEVEL {
        children_upto(octree, id, 8)
    } else {
        Seq::empty()
    }
}

/// Visits the nodes of an octree breadth-first, starting at the root. A node that the filter
/// rejects is skipped together with its subtree; only children present in the index are visited.
pub struct NodeIdsIterator<'a, F> {
    octree: &'a Octree,
    filter_func: F,
    node_ids: VecDeque<NodeId>,
    returned: Ghost<Seq<NodeId>>,
}

/// `id` is not the root and its parent is among `visited`.
pub open spec fn has_visited_parent(visited: Seq<NodeId>, id: NodeId) -> bool {
    &&& id.level > 0
    &&& exists|j: int| 0 <= j < visited.len() && #[trigger] visited[j] == id.parent_spec()
}

/// Every id of `visited` is the root or has its parent earlier in `visited`.
pub open spec fn parents_first(visited: Seq<NodeId>) -> bool {
    forall|k: int|
        0 <= k < visited.len() ==> #[trigger] visited[k] == root_id() || (
        visited[k].level > 0 && exists|j: int| 0 <= j < k && visited[j] == visited[k].parent_spec())
}

proof fn lemma_parents_first_push(visited: Seq<NodeId>, id: NodeId)
    requires
        parents_first(visited),
        id == root_id() || has_visited_parent(visited, id),
    ensures
        parents_first(visited.push(id)),
{
    let nv = visited.push(id);
    assert forall|k: int| 0 <= k < nv.len() implies #[trigger] nv[k] == root_id() || (nv[k].level > 0 && exists|j: int| 0 <= j < k && nv[j] == nv[k].parent_spec()) by {
        if k < visited.len() {
            assert(nv[k] == visited[k]);
            if nv[k] != root_id() {
                let j = choose|j: int| 0 <= j < k && visited[j] == visited[k].parent_spec();
                assert(nv[j] == visited[j]);
            }
        } else if id != root_id() {
            let j = choose|j: int| 0 <= j < visited.len() && #[trigger] visited[j] == id.parent_spec();
            assert(nv[j] == visited[j]);
        }
    }
}

/// A queued id is a valid cell, and either the root or a child of a node already returned.
pub open spec fn queued_ok(visited: Seq<NodeId>, id: NodeId) -> bool {
    &&& id.wf()
    &&& id == root_id() || has_visited_parent(visited, id)
}

impl<'a, F> NodeIdsIterator<'a, F> where F: Fn(&NodeId, &Octree) -> bool {
    pub closed spec fn octree_spec(&self) -> &'a Octree {
        self.octree
    }

    pub closed spec fn filter_spec(&self) -> F {
        self.filter_func
    }

    /// The nodes still waiting to be offered to the filter, in visiting order.
    pub closed spec fn queue(&self) -> Seq<NodeId> {
        self.node_ids@
    }

    /// The ids returned so far, in order.
    pub closed spec fn visited(&self) -> Seq<NodeId> {
        self.returned@
    }

    /// Queued ids are valid cells reached from returned ones, and every returned id is the root
    /// or has its parent returned before it.
    pub open spec fn wf(&self) -> bool {
        &&& forall|i: int|
            0 <= i < self.queue().len() ==> queued_ok(self.visited(), #[trigger] self.queue()[i])
        &&& parents_first(self.visited())
    }

    /// An iterator whose queue holds the root alone.
    pub fn new(octree: &'a Octree, filter_func: F) -> (r: NodeIdsIterator<'a, F>)
        ensures
            r.octree_spec() == octree,
            r.filter_spec() == filter_func,
            r.queue() == seq![root_id()],
            r.visited() == Seq::<NodeId>::empty(),
            r.wf(),
    {
        let mut node_ids = VecDeque::new();
        node_ids.push_back(NodeId::root());
        NodeIdsIterator { octree, filter_func, node_ids, returned: Ghost(Seq::empty()) }
    }

    /// Takes ids from the front of the queue until the filter accepts one; that one is returned
    /// and its populated children join the back of the queue. `None` once the queue is empty.
    /// Every id returned is the root or a child of an id returned before it.
    pub fn next(&mut self) -> (r: Option<NodeId>)
        requires
            old(self).wf(),
            forall|id: &NodeId, o: &Octree| #[trigger] old(self).filter_spec().requires((id, o)),
        ensures
            final(self).wf(),
            final(self).octree_spec() == old(self).octree_spec(),
            final(self).filter_spec() == old(self).filter_spec(),
            r is None ==> final(self).visited() == old(self).visited(),
            r is Some ==> final(self).visited() == old(self).visited().push(r->Some_0) && (r->Some_0
                == root_id() || has_visited_parent(old(self).visited(), r->Some_0)),
            match r {
                Some(id) => exists|j: int|
                    {
                        &&& 0 <= j < old(self).queue().len()
                        &&& old(self).queue()[j] == id
                        &&& forall|i: int|
                            0 <= i < j ==> old(self).filter_spec().ensures(
                                (&old(self).queue()[i], old(self).octree_spec()),
                                false,
                            )
                        &&& old(self).filter_spec().ensures((&id, old(self).octree_spec()), true)
                        &&& final(self).queue() == old(self).queue().skip(j + 1) + populated_children(
                            old(self).octree_spec(),
                            id,
                        )
                    },
                None => {
                    &&& forall|i: int|
                        0 <= i < old(self).queue().len() ==> old(self).filter_spec().ensures(
                            (&old(self).queue()[i], old(self).octree_spec()),
                            false,
                        )
                    &&& final(self).queue().len() == 0
                },
            },
    {
        let ghost q = self.node_ids@;
        let ghost mut skipped: int = 0;
        let ghost v = self.returned@;
        assert forall|i: int| 0 <= i < q.len() implies queued_ok(v, #[trigger] q[i]) by {
            assert(old(self).queue()[i] == q[i]);
        }
        loop
            invariant
                0 <= skipped <= q.len(),
                q == old(self).queue(),
                self.octree == old(self).octree,
                self.filter_func == old(self).filter_func,
                self.node_ids@ == q.skip(skipped),
                v == old(self).visited(),
                self.returned@ == v,
                parents_first(v),
                forall|i: int| 0 <= i < q.len() ==> queued_ok(v, #[trigger] q[i]),
                forall|id: &NodeId, o: &Octree| #[trigger] old(self).filter_spec().requires((id, o)),
                forall|i: int|
                    0 <= i < skipped ==> old(self).filter_spec().ensures(
                        (&q[i], old(self).octree_spec()),
                        false,
                    ),
            decreases q.len() - skipped,
        {
            match self.node_ids.pop_front() {
                None => {
                    return None;
                },
                Some(current) => {
                    assert(current == q[skipped]);
                    assert(old(self).filter_spec().requires((&current, self.octree)));
                    let keep = (self.filter_func)(&current, self.octree);
                    if keep {
                        let ghost rest = q.skip(skipped + 1);
                        assert(self.node_ids@ =~= rest);
                        assert(queued_ok(v, q[skipped]));
                        let ghost nv = v.push(current);
                        self.returned = Ghost(nv);
                        assert forall|i: int| 0 <= i < rest.len() implies queued_ok(nv, #[trigger] rest[i]) by {
                            assert(rest[i] == q[skipped + 1 + i]);
                            assert(queued_ok(v, q[skipped + 1 + i]));
                            if has_visited_parent(v, rest[i]) {
                                let j = choose|j: int| 0 <= j < v.len() && #[trigger] v[j] == rest[i].parent_spec();
                                assert(nv[j] == v[j]);
                            }
                        }
                        if current.level < MAX_LEVEL {
                            let mut c: u8 = 0;
                            while c < 8
                                invariant
                                    c <= 8,
                                    current.wf(),
                                    current.level < MAX_LEVEL,
                                    self.octree == old(self).octree,
                                    self.filter_func == old(self).filter_func,
                                    self.node_ids@ == rest + children_upto(
                                        self.octree,
                                        current,
                                        c as nat,
                                    ),
                                    forall|i: int| 0 <= i < rest.len() ==> queued_ok(nv, #[trigger] rest[i]),
                                    self.returned@ == nv,
                                decreases 8 - c,
                            {
                                let child_id = current.get_child_id(ChildIndex::from_u8(c));
                                if self.octree.contains(&child_id) {
                                    self.node_ids.push_back(child_id);
                                }
                                c = c + 1;
                            }
                        }
                        proof {
                            assert(self.node_ids@ == rest + populated_children(self.octree, current));
                            lemma_children_wf(self.octree, current);
                            assert(nv[v.len() as int] == current);
                            assert forall|i: int| 0 <= i < self.queue().len() implies queued_ok(
                                self.visited(),
                                #[trigger] self.queue()[i],
                            ) by {
                                if i >= rest.len() {
                                    let ch = populated_children(self.octree, current)[i - rest.len()];
                                    assert(self.queue()[i] == ch);
                                    assert(ch.wf() && ch.level > 0 && ch.parent_spec() == current);
                                    assert(nv[v.len() as int] == ch.parent_spec());
                                    assert(has_visited_parent(nv, ch));
                                    assert(queued_ok(nv, ch));
                                } else {
                                    assert(self.queue()[i] == rest[i]);
                                    assert(queued_ok(nv, rest[i]));
                                }
                            }
                            assert(old(self).queue()[skipped] == current);
                        }
                        assert(self.visited() == old(self).visited().push(current));
                        assert(current == root_id() || has_visited_parent(
                            old(self).visited(),
                            current,
                        ));
                        proof {
                            lemma_parents_first_push(v, current);
                        }
                        return Some(current);
                    }
                    proof {
                        skipped = skipped + 1;
                    }
                },
            }
        }
    }
}

proof fn lemma_children_upto_wf(octree: &Octree, id: NodeId, i: nat)
    requires
        id.wf(),
        id.level < MAX_LEVEL,
        i <= 8,
    ensures
        forall|j: int|
            0 <= j < children_upto(octree, id, i).len() ==> (#[trigger] children_upto(
                octree,
                id,
                i,
            )[j]).wf() && children_upto(octree, id, i)[j].level > 0 && children_upto(
                octree,
                id,
                i,
            )[j].parent_spec() == id,
    decreases i,
{
    if i > 0 {
        lemma_children_upto_wf(octree, id, (i - 1) as nat);
        lemma_child_wf(id, (i - 1) as nat);
        lemma_parent_of_child(id, (i - 1) as nat);
        let prev = children_upto(octree, id, (i - 1) as nat);
        let cur = children_upto(octree, id, i);
        assert forall|j: int| 0 <= j < cur.len() implies (#[trigger] cur[j]).wf() && cur[j].level > 0
            && cur[j].parent_spec() == id by {
            if j < prev.len() {
                assert(cur[j] == prev[j]);
            }
        }
    }
}

proof fn lemma_children_wf(octree: &Octree, id: NodeId)
    requires
        id.wf(),
    ensures
        forall|j: int|
            0 <= j < populated_children(octree, id).len() ==> (#[trigger] populated_children(
                octree,
                id,
            )[j]).wf() && populated_children(octree, id)[j].level > 0 && populated_children(
                octree,
                id,
            )[j].parent_spec() == id,
{
    if id.level < MAX_LEVEL {
        lemma_children_upto_wf(octree, id, 8);
    }
}

} // verus!
