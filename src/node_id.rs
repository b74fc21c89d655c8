//! Names of octree cells and the cubes they bound.
use vstd::prelude::*;

use crate::encoding::Cube;

verus! {

/// The deepest level a node can have: eight children per level must fit a `u64` index.
pub const MAX_LEVEL: u8 = 21;

/// `8^n`.
pub open spec fn pow8(n: nat) -> nat
    decreases n,
{
    if n == 0 {
        1
    } else {
        8 * pow8((n - 1) as nat)
    }
}

/// One of the eight octants of a cell. Bit 0 selects +x, bit 1 selects +y, bit 2 selects +z.
#[derive(Clone, Copy, Debug, PartialEq, Eq, Structural)]
pub struct ChildIndex {
    pub index: u8,
}

impl ChildIndex {
    pub open spec fn value(self) -> nat {
        self.index as nat
    }

    /// Builds a child index; the value must lie in `[0, 8)`.
    pub fn from_u8(index: u8) -> (r: ChildIndex)
        requires
            index < 8,
        ensures
            r.value() == index,
    {
        ChildIndex { index }
    }

    pub fn as_u8(&self) -> (r: u8)
        ensures
            r as nat == self.value(),
    {
        self.index
    }
}

/// A cell of the octree: its depth below the root and its position within that level.
#[derive(Clone, Copy, Debug, PartialEq, Eq, Structural, Hash)]
pub struct NodeId {
    pub level: u8,
    pub index: u64,
}

impl NodeId {
    pub open spec fn level_spec(self) -> nat {
        self.level as nat
    }

    pub open spec fn index_spec(self) -> nat {
        self.index as nat
    }

    /// The level is at most `MAX_LEVEL` and the index names a cell of that level.
    pub open spec fn wf(self) -> bool {
        &&& self.level <= MAX_LEVEL
        &&& self.index < pow8(self.level as nat)
    }

    pub open spec fn child_spec(self, child: nat) -> NodeId {
        NodeId { level: (self.level + 1) as u8, index: (self.index * 8 + child) as u64 }
    }

    pub open spec fn parent_spec(self) -> NodeId {
        NodeId { level: (self.level - 1) as u8, index: (self.index / 8) as u64 }
    }

    /// The digits `0..7` of the path from the root, most significant first.
    pub open spec fn path_digits(level: nat, index: nat) -> Seq<char>
        decreases level,
    {
        if level == 0 {
            Seq::empty()
        } else {
            Self::path_digits((level - 1) as nat, index / 8).push(digit_char((index % 8) as u8))
        }
    }

    /// The canonical name: `r` followed by one digit per level step.
    pub open spec fn name_spec(self) -> Seq<char> {
        seq!['r'] + Self::path_digits(self.level as nat, self.index as nat)
    }

    pub fn from_level_index(level: u8, index: u64) -> (r: NodeId)
        requires
            level <= MAX_LEVEL,
            index < pow8(level as nat),
        ensures
            r.level_spec() == level,
            r.index_spec() == index,
            r.wf(),
    {
        NodeId { level, index }
    }

    /// The root cell.
    pub fn root() -> (r: NodeId)
        ensures
            r.level_spec() == 0,
            r.index_spec() == 0,
            r.wf(),
    {
        NodeId { level: 0, index: 0 }
    }

    pub fn level(&self) -> (r: u8)
        ensures
            r == self.level,
    {
        self.level
    }

    pub fn index(&self) -> (r: u64)
        ensures
            r == self.index,
    {
        self.index
    }

    /// The id of the child cell in octant `child`.
    pub fn get_child_id(&self, child: ChildIndex) -> (r: NodeId)
        requires
            self.wf(),
            child.value() < 8,
            self.level < MAX_LEVEL,
        ensures
            r == self.child_spec(child.value()),
            r.wf(),
    {
        proof {
            lemma_child_wf(*self, child.value());
        }
        assert(self.index * 8 + child.index < 0x8000_0000_0000_0000u64);
        NodeId { level: self.level + 1, index: self.index * 8 + child.index as u64 }
    }

    /// The id of the parent cell; the root has none.
    pub fn parent_id(&self) -> (r: Option<NodeId>)
        requires
            self.wf(),
        ensures
            self.level == 0 ==> r.is_none(),
            self.level > 0 ==> r == Some(self.parent_spec()) && self.parent_spec().wf(),
    {
        if self.level == 0 {
            None
        } else {
            proof {
                lemma_parent_wf(*self);
            }
            Some(NodeId { level: self.level - 1, index: self.index / 8 })
        }
    }

    /// The canonical name, used as a file name stem: `r` followed by one digit per level.
    pub fn to_string(&self) -> (r: String)
        requires
            self.wf(),
        ensures
            r@ == self.name_spec(),
    {
        let mut s = "r".to_owned();
        proof {
            reveal_strlit("r");
        }
        push_path(&mut s, self.level, self.index);
        s
    }

    /// Which octant of its parent this cell is.
    pub fn child_index(&self) -> (r: ChildIndex)
        ensures
            r.value() == self.index % 8,
    {
        ChildIndex { index: (self.index % 8) as u8 }
    }
}

/// Appends the path digits of the cell `(level, index)` to `s`.
fn push_path(s: &mut String, level: u8, index: u64)
    ensures
        final(s)@ == old(s)@ + NodeId::path_digits(level as nat, index as nat),
    decreases level,
{
    if level > 0 {
        push_path(s, level - 1, index / 8);
        let d: u8 = (index % 8) as u8;
        push_char(s, ((d + 48) as u8) as char);
        proof {
            assert(s@ =~= old(s)@ + NodeId::path_digits(level as nat, index as nat));
        }
    } else {
        assert(s@ =~= old(s)@ + NodeId::path_digits(level as nat, index as nat));
    }
}

/// Relies on `String::push`: the character is appended at the end.
#[verifier::external_body]
fn push_char(s: &mut String, c: char)
    ensures
        final(s)@ == old(s)@.push(c),
{
    s.push(c)
}

/// The edge of a cell `level` steps below a root of edge `edge`.
pub open spec fn edge_at(edge: nat, level: nat) -> nat
    decreases level,
{
    if level == 0 {
        edge
    } else {
        edge_at(edge, (level - 1) as nat) / 2
    }
}

/// The cube of the cell `(level, index)` below `root`: each level halves the parent's cube.
pub open spec fn bounding_cube_spec(root: Cube, level: nat, index: nat) -> Cube
    decreases level,
{
    if level == 0 {
        root
    } else {
        bounding_cube_spec(root, (level - 1) as nat, index / 8).child_spec(index % 8)
    }
}

fn bounding_cube(root: &Cube, level: u8, index: u64) -> (r: Cube)
    requires
        root.wf(),
        edge_at(root.edge as nat, level as nat) > 0,
    ensures
        r == bounding_cube_spec(*root, level as nat, index as nat),
        r.wf(),
        r.edge == edge_at(root.edge as nat, level as nat),
        forall|p: [i64; 3]| r.contains_spec(p) ==> root.contains_spec(p),
    decreases level,
{
    if level == 0 {
        *root
    } else {
        let parent = bounding_cube(root, level - 1, index / 8);
        parent.child((index % 8) as u8)
    }
}

impl NodeId {
    /// The cube this cell covers below the cube `root` of the whole octree.
    pub fn find_bounding_cube(&self, root: &Cube) -> (r: Cube)
        requires
            root.wf(),
            edge_at(root.edge as nat, self.level as nat) > 0,
        ensures
            r == bounding_cube_spec(*root, self.level as nat, self.index as nat),
            r.wf(),
            r.edge == edge_at(root.edge as nat, self.level as nat),
            forall|p: [i64; 3]| r.contains_spec(p) ==> root.contains_spec(p),
    {
        bounding_cube(root, self.level, self.index)
    }
}

/// The id of the root cell.
pub open spec fn root_id() -> NodeId {
    NodeId { level: 0, index: 0 }
}

pub open spec fn digit_char(d: u8) -> char {
    ((d + 48) as u8) as char
}

pub proof fn lemma_pow8_positive(n: nat)
    ensures
        pow8(n) >= 1,
    decreases n,
{
    if n > 0 {
        lemma_pow8_positive((n - 1) as nat);
    }
}

pub proof fn lemma_pow8_adds(a: nat, b: nat)
    ensures
        pow8(a) * pow8(b) == pow8(a + b),
    decreases a,
{
    if a > 0 {
        lemma_pow8_adds((a - 1) as nat, b);
        let p = pow8((a - 1) as nat);
        let q = pow8(b);
        assert(pow8(a + b) == 8 * pow8(((a - 1) as nat + b) as nat));
        assert(pow8(a) == 8 * p);
        assert((8 * p) * q == 8 * (p * q)) by (nonlinear_arith);
    } else {
        assert(pow8(0) == 1);
        assert(a + b == b);
    }
}

pub proof fn lemma_pow8_bound(n: nat)
    requires
        n <= MAX_LEVEL,
    ensures
        pow8(n) <= pow8(MAX_LEVEL as nat),
        pow8(MAX_LEVEL as nat) == 0x8000_0000_0000_0000u64,
{
    reveal_with_fuel(pow8, 8);
    assert(pow8(7) == 2097152);
    lemma_pow8_adds(7, 7);
    lemma_pow8_adds(14, 7);
    lemma_pow8_monotone(n, MAX_LEVEL as nat);
}

pub proof fn lemma_pow8_monotone(a: nat, b: nat)
    requires
        a <= b,
    ensures
        pow8(a) <= pow8(b),
    decreases b - a,
{
    if a < b {
        lemma_pow8_monotone(a, (b - 1) as nat);
        lemma_pow8_positive((b - 1) as nat);
    }
}

/// The child of a cell above the deepest level is a valid cell.
pub proof fn lemma_child_wf(n: NodeId, child: nat)
    requires
        n.wf(),
        n.level < MAX_LEVEL,
        child < 8,
    ensures
        n.index * 8 + child < pow8((n.level + 1) as nat),
        n.index * 8 + child < 0x8000_0000_0000_0000u64,
        n.child_spec(child).wf(),
{
    lemma_pow8_bound((n.level + 1) as nat);
    assert(pow8((n.level + 1) as nat) == 8 * pow8(n.level as nat));
    assert(n.index * 8 + child < 0x8000_0000_0000_0000u64);
}

/// The parent of a valid cell below the root is valid.
pub proof fn lemma_parent_wf(n: NodeId)
    requires
        n.wf(),
        n.level > 0,
    ensures
        n.parent_spec().wf(),
{
    assert(pow8(n.level as nat) == 8 * pow8((n.level - 1) as nat));
}

/// A cell below the root is the child of its parent in the octant of its last digit.
pub proof fn lemma_child_of_parent(n: NodeId)
    requires
        n.wf(),
        n.level > 0,
    ensures
        n.parent_spec().level < MAX_LEVEL,
        n.parent_spec().child_spec(n.index as nat % 8) == n,
{
    let p = n.parent_spec();
    assert(p.index * 8 + n.index % 8 == n.index);
}

/// The parent of the child in any octant of a cell is that cell again.
pub proof fn lemma_parent_of_child(n: NodeId, child: nat)
    requires
        n.wf(),
        n.level < MAX_LEVEL,
        child < 8,
    ensures
        n.child_spec(child).parent_spec() == n,
        n.child_spec(child).index_spec() % 8 == child,
{
    lemma_child_wf(n, child);
    let c = n.child_spec(child);
    assert(c.index == n.index * 8 + child);
    assert((n.index * 8 + child) / 8 == n.index && (n.index * 8 + child) % 8 == child)
        by (nonlinear_arith)
        requires
            child < 8,
    ;
}

} // verus!
