//! Culling of a node's points against an axis-aligned query box.
use vstd::prelude::*;

use crate::batch::{answered, num_batches, try_for_each_batch, Flow, IterError};
use crate::encoding::Cube;

verus! {

/// An axis-aligned box given by its minimum and maximum corners, faces included.
#[derive(Clone, Copy, Debug)]
pub struct Aabb {
    pub min: [i64; 3],
    pub max: [i64; 3],
}

/// How a node's cube lies relative to a query region.
#[derive(Clone, Copy, Debug, PartialEq, Eq, Structural)]
pub enum Relation {
    /// No point of the cube is in the region: the subtree is pruned.
    Outside,
    /// Every point of the cube is in the region: points need no test.
    Inside,
    /// Points have to be tested one by one.
    Crosses,
}

impl Aabb {
    pub open spec fn contains_spec(self, p: [i64; 3]) -> bool {
        forall|a: int| 0 <= a < 3 ==> self.min[a] <= #[trigger] p[a] <= self.max[a]
    }

    /// The box that covers exactly `cube`.
    pub open spec fn of_cube_spec(cube: Cube) -> Aabb {
        Aabb {
            min: cube.min,
            max: [
                (cube.min[0] + cube.edge) as i64,
                (cube.min[1] + cube.edge) as i64,
                (cube.min[2] + cube.edge) as i64,
            ],
        }
    }

    pub fn contains(&self, p: &[i64; 3]) -> (r: bool)
        ensures
            r == self.contains_spec(*p),
    {
        let r = self.min[0] <= p[0] && p[0] <= self.max[0] && self.min[1] <= p[1] && p[1]
            <= self.max[1] && self.min[2] <= p[2] && p[2] <= self.max[2];
        assert(r == self.contains_spec(*p)) by {
            if !r {
                assert(!(self.min[0] <= p[0] <= self.max[0]) || !(self.min[1] <= p[1]
                    <= self.max[1]) || !(self.min[2] <= p[2] <= self.max[2]));
            }
        }
        r
    }

    /// On every axis the cube's extent lies within the box's.
    pub open spec fn covers_cube(self, cube: Cube) -> bool {
        forall|a: int|
            0 <= a < 3 ==> self.min[a] <= #[trigger] cube.min[a] && cube.min[a] + cube.edge
                <= self.max[a]
    }

    /// On some axis the cube's extent and the box's do not meet.
    pub open spec fn misses_cube(self, cube: Cube) -> bool {
        exists|a: int|
            0 <= a < 3 && (#[trigger] cube.min[a] + cube.edge < self.min[a] || self.max[a]
                < cube.min[a])
    }

    /// Where `cube` lies relative to this box: `Outside` when they are apart on some axis,
    /// otherwise `Inside` when the box covers the cube on every axis, otherwise `Crosses`.
    pub fn classify(&self, cube: &Cube) -> (r: Relation)
        requires
            cube.wf(),
        ensures
            (r == Relation::Outside) == self.misses_cube(*cube),
            (r == Relation::Inside) == (!self.misses_cube(*cube) && self.covers_cube(*cube)),
            r == Relation::Inside ==> forall|p: [i64; 3]|
                cube.contains_spec(p) ==> #[trigger] self.contains_spec(p),
            r == Relation::Outside ==> forall|p: [i64; 3]|
                cube.contains_spec(p) ==> !#[trigger] self.contains_spec(p),
    {
        let e = cube.edge as i128;
        let mut inside = true;
        let mut outside = false;
        let mut a: usize = 0;
        while a < 3
            invariant
                a <= 3,
                cube.wf(),
                e == cube.edge,
                inside <==> forall|b: int|
                    0 <= b < a ==> self.min[b] <= cube.min[b] && cube.min[b] + cube.edge
                        <= self.max[b],
                outside <==> exists|b: int|
                    0 <= b < a && (cube.min[b] + cube.edge < self.min[b] || self.max[b]
                        < cube.min[b]),
            decreases 3 - a,
        {
            let lo = cube.min[a] as i128;
            let hi = lo + e;
            if !((self.min[a] as i128) <= lo && hi <= (self.max[a] as i128)) {
                inside = false;
            }
            if hi < (self.min[a] as i128) || (self.max[a] as i128) < lo {
                outside = true;
            }
            a = a + 1;
        }
        assert(inside == self.covers_cube(*cube));
        assert(outside == self.misses_cube(*cube));
        if outside {
            assert forall|p: [i64; 3]| cube.contains_spec(p) implies !#[trigger] self.contains_spec(
                p,
            ) by {
                let b = choose|b: int|
                    0 <= b < 3 && (cube.min[b] + cube.edge < self.min[b] || self.max[b]
                        < cube.min[b]);
                assert(cube.min[b] <= p[b] <= cube.min[b] + cube.edge);
            }
            Relation::Outside
        } else if inside {
            assert forall|p: [i64; 3]| cube.contains_spec(p) implies #[trigger] self.contains_spec(
                p,
            ) by {
                assert forall|b: int| 0 <= b < 3 implies self.min[b] <= #[trigger] p[b]
                    <= self.max[b] by {
                    assert(cube.min[b] <= p[b] <= cube.min[b] + cube.edge);
                }
            }
            Relation::Inside
        } else {
            Relation::Crosses
        }
    }
}

/// The points of `points` that lie in `region`, in their order.
pub open spec fn points_in_region(points: Seq<[i64; 3]>, region: Aabb) -> Seq<[i64; 3]>
    decreases points.len(),
{
    if points.len() == 0 {
        Seq::empty()
    } else {
        let rest = points_in_region(points.drop_last(), region);
        if region.contains_spec(points.last()) {
            rest.push(points.last())
        } else {
            rest
        }
    }
}

/// The points of one node that lie in `region`, in file order. The node's cube is tested first:
/// a cube outside the region yields nothing and one inside it yields every point, both without
/// a test per point.
pub fn points_in_box(region: &Aabb, cube: &Cube, points: &Vec<[i64; 3]>) -> (r: Vec<[i64; 3]>)
    requires
        cube.wf(),
        forall|i: int| 0 <= i < points@.len() ==> cube.contains_spec(#[trigger] points@[i]),
    ensures
        r@ == points_in_region(points@, *region),
{
    let relation = region.classify(cube);
    let mut r: Vec<[i64; 3]> = Vec::new();
    if let Relation::Outside = relation {
        proof {
            lemma_none_in_region(points@, *region);
        }
        return r;
    }
    let mut i: usize = 0;
    while i < points.len()
        invariant
            i <= points@.len(),
            relation != Relation::Outside,
            relation == Relation::Inside ==> forall|p: [i64; 3]|
                cube.contains_spec(p) ==> #[trigger] region.contains_spec(p),
            forall|j: int| 0 <= j < points@.len() ==> cube.contains_spec(#[trigger] points@[j]),
            r@ == points_in_region(points@.subrange(0, i as int), *region),
        decreases points@.len() - i,
    {
        let p = points[i];
        let keep = match relation {
            Relation::Inside => {
                assert(cube.contains_spec(points@[i as int]));
                true
            },
            _ => region.contains(&p),
        };
        if keep {
            r.push(p);
        }
        proof {
            let s = points@.subrange(0, i + 1);
            assert(s.drop_last() =~= points@.subrange(0, i as int));
            assert(s.last() == p);
        }
        i = i + 1;
    }
    assert(points@.subrange(0, points@.len() as int) =~= points@);
    r
}

/// The points of `nodes` that lie in `region`: node after node, each in file order.
pub open spec fn nodes_points_in_region(nodes: Seq<Vec<[i64; 3]>>, region: Aabb) -> Seq<[i64; 3]>
    decreases nodes.len(),
{
    if nodes.len() == 0 {
        Seq::empty()
    } else {
        nodes_points_in_region(nodes.drop_last(), region) + points_in_region(nodes.last()@, region)
    }
}

/// Every node's points lie in that node's cube.
pub open spec fn nodes_in_cubes(cubes: Seq<Cube>, nodes: Seq<Vec<[i64; 3]>>) -> bool {
    &&& cubes.len() == nodes.len()
    &&& forall|k: int| 0 <= k < cubes.len() ==> (#[trigger] cubes[k]).wf()
    &&& forall|k: int, i: int|
        0 <= k < nodes.len() && 0 <= i < nodes[k]@.len() ==> cubes[k].contains_spec(
            #[trigger] nodes[k]@[i],
        )
}

/// The points of several nodes that lie in `region`, node after node; each node is culled as
/// `points_in_box` does.
pub fn points_in_box_of_nodes(region: &Aabb, cubes: &Vec<Cube>, nodes: &Vec<Vec<[i64; 3]>>) -> (r:
    Vec<[i64; 3]>)
    requires
        nodes_in_cubes(cubes@, nodes@),
    ensures
        r@ == nodes_points_in_region(nodes@, *region),
{
    let mut r: Vec<[i64; 3]> = Vec::new();
    let mut k: usize = 0;
    while k < nodes.len()
        invariant
            k <= nodes@.len(),
            nodes_in_cubes(cubes@, nodes@),
            r@ == nodes_points_in_region(nodes@.take(k as int), *region),
        decreases nodes@.len() - k,
    {
        assert(cubes@[k as int].wf());
        assert forall|i: int| 0 <= i < nodes@[k as int]@.len() implies cubes@[k as int].contains_spec(
            #[trigger] nodes@[k as int]@[i],
        ) by {}
        let mut part = points_in_box(region, &cubes[k], &nodes[k]);
        r.append(&mut part);
        proof {
            let next = nodes@.take(k + 1);
            assert(next.drop_last() =~= nodes@.take(k as int));
            assert(next.last() == nodes@[k as int]);
        }
        k = k + 1;
    }
    assert(nodes@.take(nodes@.len() as int) =~= nodes@);
    r
}

/// Every point returned for several nodes lies in the region.
pub proof fn lemma_nodes_points_are_contained(nodes: Seq<Vec<[i64; 3]>>, region: Aabb)
    ensures
        forall|i: int|
            0 <= i < nodes_points_in_region(nodes, region).len() ==> region.contains_spec(
                #[trigger] nodes_points_in_region(nodes, region)[i],
            ),
    decreases nodes.len(),
{
    if nodes.len() > 0 {
        lemma_nodes_points_are_contained(nodes.drop_last(), region);
        lemma_region_points_are_contained(nodes.last()@, region);
        let a = nodes_points_in_region(nodes.drop_last(), region);
        let b = points_in_region(nodes.last()@, region);
        let all = nodes_points_in_region(nodes, region);
        assert forall|i: int| 0 <= i < all.len() implies region.contains_spec(#[trigger] all[i]) by {
            if i < a.len() {
                assert(all[i] == a[i]);
            } else {
                assert(all[i] == b[i - a.len()]);
            }
        }
    }
}

/// Hands the points of `nodes` that lie in `region` to `func` in batches of `batch_size`, as
/// `try_for_each_batch` does: in order, stopping with `Cancelled` at the first batch that `func`
/// answers with `Stop`.
pub fn try_for_each_batch_in_box<F: Fn(&Vec<[i64; 3]>) -> Flow>(
    region: &Aabb,
    cubes: &Vec<Cube>,
    nodes: &Vec<Vec<[i64; 3]>>,
    batch_size: usize,
    func: F,
) -> (r: Result<(), IterError>)
    requires
        nodes_in_cubes(cubes@, nodes@),
        batch_size > 0,
        forall|b: &Vec<[i64; 3]>| #[trigger] func.requires((b,)),
    ensures
        ({
            let points = nodes_points_in_region(nodes@, *region);
            match r {
                Ok(()) => forall|i: nat|
                    i < num_batches(points.len(), batch_size as nat) ==> #[trigger] answered(
                        func,
                        points,
                        batch_size as nat,
                        i,
                        Flow::Continue,
                    ),
                Err(e) => e == IterError::Cancelled && exists|k: nat|
                    {
                        &&& k < num_batches(points.len(), batch_size as nat)
                        &&& forall|i: nat|
                            i < k ==> #[trigger] answered(
                                func,
                                points,
                                batch_size as nat,
                                i,
                                Flow::Continue,
                            )
                        &&& answered(func, points, batch_size as nat, k, Flow::Stop)
                    },
            }
        }),
{
    let points = points_in_box_of_nodes(region, cubes, nodes);
    try_for_each_batch(&points, batch_size, func)
}

proof fn lemma_none_in_region(points: Seq<[i64; 3]>, region: Aabb)
    requires
        forall|i: int| 0 <= i < points.len() ==> !region.contains_spec(#[trigger] points[i]),
    ensures
        points_in_region(points, region) == Seq::<[i64; 3]>::empty(),
    decreases points.len(),
{
    if points.len() > 0 {
        let s = points.drop_last();
        assert forall|i: int| 0 <= i < s.len() implies !region.contains_spec(#[trigger] s[i]) by {
            assert(s[i] == points[i]);
        }
        lemma_none_in_region(s, region);
    }
}

/// Every point returned lies in the region.
pub proof fn lemma_region_points_are_contained(points: Seq<[i64; 3]>, region: Aabb)
    ensures
        forall|i: int|
            0 <= i < points_in_region(points, region).len() ==> region.contains_spec(
                #[trigger] points_in_region(points, region)[i],
            ),
    decreases points.len(),
{
    if points.len() > 0 {
        lemma_region_points_are_contained(points.drop_last(), region);
        let rest = points_in_region(points.drop_last(), region);
        let all = points_in_region(points, region);
        assert forall|i: int| 0 <= i < all.len() implies region.contains_spec(#[trigger] all[i]) by {
            if i < rest.len() {
                assert(all[i] == rest[i]);
            }
        }
    }
}

/// A region that covers every point returns all of them, in their order.
pub proof fn lemma_covering_region_returns_all(points: Seq<[i64; 3]>, region: Aabb)
    requires
        forall|i: int| 0 <= i < points.len() ==> region.contains_spec(#[trigger] points[i]),
    ensures
        points_in_region(points, region) == points,
    decreases points.len(),
{
    if points.len() > 0 {
        let s = points.drop_last();
        assert forall|i: int| 0 <= i < s.len() implies region.contains_spec(#[trigger] s[i]) by {
            assert(s[i] == points[i]);
        }
        lemma_covering_region_returns_all(s, region);
        assert(s.push(points.last()) =~= points);
    }
}

/// The box of a node's cube returns every point of the node.
pub proof fn lemma_root_cube_region_returns_all(points: Seq<[i64; 3]>, cube: Cube)
    requires
        cube.wf(),
        forall|i: int| 0 <= i < points.len() ==> cube.contains_spec(#[trigger] points[i]),
    ensures
        points_in_region(points, Aabb::of_cube_spec(cube)) == points,
{
    let region = Aabb::of_cube_spec(cube);
    assert forall|i: int| 0 <= i < points.len() implies region.contains_spec(#[trigger] points[i]) by {
        let p = points[i];
        assert(cube.contains_spec(p));
        assert forall|a: int| 0 <= a < 3 implies region.min[a] <= #[trigger] p[a] <= region.max[a] by {
            assert(cube.min[a] <= p[a] <= cube.min[a] + cube.edge);
        }
    }
    lemma_covering_region_returns_all(points, region);
}

} // verus!
