//! Splitting earth-centered points by geographic cell.
use std::collections::HashMap;
use std::collections::HashSet;
use std::num::NonZeroUsize;
use vstd::prelude::*;

verus! {

broadcast use vstd::std_specs::hash::group_hash_axioms;

/// Lower bound for the distance of a valid point from the earth's center, in millimetres.
pub const EARTH_RADIUS_MIN_MM: u64 = 6_352_800_000;

/// Upper bound for the distance of a valid point from the earth's center, in millimetres.
pub const EARTH_RADIUS_MAX_MM: u64 = 6_384_400_000;

/// How many cells may have open writers at once.
pub const MAX_NUM_NODE_WRITERS: usize = 25;

/// The level of the geographic cells points are grouped by (cells of about 10 m).
pub const S2_SPLIT_LEVEL: u64 = 20;

/// How a cell's files are opened.
#[derive(Clone, Copy, Debug, PartialEq, Eq, Structural)]
pub enum OpenMode {
    /// Create the files, or empty them if they exist.
    Truncate,
    /// Create the files, or extend them if they exist.
    Append,
}

/// Why a batch could not be split.
#[derive(Clone, Copy, Debug, PartialEq, Eq, Structural)]
pub enum SplitError {
    /// The point at this index lies outside the band of valid distances from the earth's center.
    DomainError(usize),
    /// The batch holds a different number of cell ids than positions.
    LengthMismatch,
}

/// A cell and the number of points it holds, as recorded in the split cloud's metadata.
#[derive(Clone, Copy, Debug, PartialEq, Eq, Structural)]
pub struct S2Cell {
    pub id: i64,
    pub num_points: i64,
}

pub fn s2_cell_to_proto(cell_id: i64, num_points: i64) -> (r: S2Cell)
    ensures
        r.id == cell_id,
        r.num_points == num_points,
{
    S2Cell { id: cell_id, num_points }
}

/// The type of the values of a point attribute column.
#[derive(Clone, Copy, Debug, PartialEq, Eq, Structural)]
pub enum AttributeDataType {
    U8,
    I64,
    U64,
    F32,
    F64,
    U8Vec3,
    F64Vec3,
    U8Vec4,
}

/// The name and value type of a point attribute.
#[derive(Debug)]
pub struct AttributeMeta {
    pub name: String,
    pub data_type: AttributeDataType,
}

/// The metadata of a cloud split by geographic cell: format version, the cells with their point
/// counts, and the attributes every point carries.
#[derive(Debug)]
pub struct S2Meta {
    pub version: i32,
    pub cells: Vec<S2Cell>,
    pub attributes: Vec<AttributeMeta>,
}

/// The metadata of a split cloud, written with format `version`; cells and attributes keep their
/// order.
pub fn s2_cloud_to_meta_proto(version: i32, cells: Vec<S2Cell>, attributes: &Vec<AttributeMeta>) -> (r:
    S2Meta)
    ensures
        r.version == version,
        r.cells@ == cells@,
        r.attributes@.len() == attributes@.len(),
        forall|i: int|
            0 <= i < attributes@.len() ==> (#[trigger] r.attributes@[i]).name@ == attributes@[i].name@
                && r.attributes@[i].data_type == attributes@[i].data_type,
{
    let mut out: Vec<AttributeMeta> = Vec::new();
    let mut i: usize = 0;
    while i < attributes.len()
        invariant
            i <= attributes@.len(),
            out@.len() == i,
            forall|j: int|
                0 <= j < i ==> (#[trigger] out@[j]).name@ == attributes@[j].name@
                    && out@[j].data_type == attributes@[j].data_type,
        decreases attributes@.len() - i,
    {
        let a = &attributes[i];
        out.push(AttributeMeta { name: a.name.clone(), data_type: a.data_type });
        i = i + 1;
    }
    S2Meta { version, cells, attributes: out }
}

pub open spec fn squared_radius(p: [i64; 3]) -> int {
    p[0] * p[0] + p[1] * p[1] + p[2] * p[2]
}

/// A point is a valid earth-centered point when its distance from the origin lies in the band,
/// both ends included.
pub open spec fn is_valid_ecef_spec(p: [i64; 3]) -> bool {
    &&& EARTH_RADIUS_MIN_MM * EARTH_RADIUS_MIN_MM <= squared_radius(p)
    &&& squared_radius(p) <= EARTH_RADIUS_MAX_MM * EARTH_RADIUS_MAX_MM
}

fn square(x: i64) -> (r: u128)
    ensures
        r == x * x,
        r <= 0x4000_0000_0000_0000_0000_0000_0000_0000u128,
{
    let w = x as i128;
    assert(w * w <= 0x4000_0000_0000_0000_0000_0000_0000_0000int) by (nonlinear_arith)
        requires
            -0x8000_0000_0000_0000int <= w <= 0x7fff_ffff_ffff_ffffint,
    ;
    assert(w * w >= 0) by (nonlinear_arith);
    (w * w) as u128
}

/// Whether `p` (in millimetres) lies in the band of valid distances from the earth's center.
pub fn is_valid_ecef(p: [i64; 3]) -> (r: bool)
    ensures
        r == is_valid_ecef_spec(p),
{
    let r2 = square(p[0]) + square(p[1]) + square(p[2]);
    assert(EARTH_RADIUS_MIN_MM * EARTH_RADIUS_MIN_MM == 40358067840000000000u128);
    assert(EARTH_RADIUS_MAX_MM * EARTH_RADIUS_MAX_MM == 40760563360000000000u128);
    let lo = (EARTH_RADIUS_MIN_MM as u128) * (EARTH_RADIUS_MIN_MM as u128);
    let hi = (EARTH_RADIUS_MAX_MM as u128) * (EARTH_RADIUS_MAX_MM as u128);
    lo <= r2 && r2 <= hi
}

/// The index of the first invalid point, if any.
pub fn first_invalid_point(positions: &Vec<[i64; 3]>) -> (r: Option<usize>)
    ensures
        match r {
            Some(i) => {
                &&& i < positions@.len()
                &&& !is_valid_ecef_spec(positions@[i as int])
                &&& forall|j: int| 0 <= j < i ==> is_valid_ecef_spec(#[trigger] positions@[j])
            },
            None => forall|j: int|
                0 <= j < positions@.len() ==> is_valid_ecef_spec(#[trigger] positions@[j]),
        },
{
    let mut i: usize = 0;
    while i < positions.len()
        invariant
            i <= positions@.len(),
            forall|j: int| 0 <= j < i ==> is_valid_ecef_spec(#[trigger] positions@[j]),
        decreases positions@.len() - i,
    {
        if !is_valid_ecef(positions[i]) {
            return Some(i);
        }
        i = i + 1;
    }
    None
}

/// The points of one batch that fall into one cell, by their index in the batch.
pub struct CellGroup {
    pub cell: u64,
    pub indices: Vec<usize>,
}

/// `groups` partitions the indices `0..cells.len()` by cell: one group per distinct cell, each
/// holding in increasing order exactly the indices whose cell it is.
pub open spec fn groups_by_cell(groups: Seq<CellGroup>, cells: Seq<u64>) -> bool {
    &&& forall|g: int, h: int|
        0 <= g < groups.len() && 0 <= h < groups.len() && g != h ==> #[trigger] groups[g].cell
            != #[trigger] groups[h].cell
    &&& forall|g: int, k: int|
        0 <= g < groups.len() && 0 <= k < groups[g].indices@.len() ==> {
            &&& #[trigger] groups[g].indices@[k] < cells.len()
            &&& cells[groups[g].indices@[k] as int] == groups[g].cell
        }
    &&& forall|g: int, k: int, l: int|
        0 <= g < groups.len() && 0 <= k < l < groups[g].indices@.len() ==> #[trigger] groups[g].indices@[k]
            < #[trigger] groups[g].indices@[l]
    &&& forall|i: int| 0 <= i < cells.len() ==> #[trigger] is_grouped(groups, i)
}

/// Index `i` is held by some group.
pub open spec fn is_grouped(groups: Seq<CellGroup>, i: int) -> bool {
    exists|g: int, k: int|
            0 <= g < groups.len() && 0 <= k < groups[g].indices@.len() && #[trigger] groups[g].indices@[k]
                == i
}

/// Groups the points of a batch by the cell each one falls into, cells in order of first
/// appearance.
pub fn group_by_cell(cells: &Vec<u64>) -> (r: Vec<CellGroup>)
    ensures
        groups_by_cell(r@, cells@),
{
    let mut groups: Vec<CellGroup> = Vec::new();
    let mut slot: HashMap<u64, usize> = HashMap::new();
    let mut i: usize = 0;
    while i < cells.len()
        invariant
            i <= cells@.len(),
            forall|c: u64| #[trigger] slot@.contains_key(c) ==> slot@[c] < groups@.len() && groups@[slot@[c] as int].cell == c,
            forall|g: int| 0 <= g < groups@.len() ==> #[trigger] slot@.contains_key(groups@[g].cell) && slot@[groups@[g].cell] == g,
            forall|g: int, k: int|
                0 <= g < groups@.len() && 0 <= k < groups@[g].indices@.len() ==> {
                    &&& #[trigger] groups@[g].indices@[k] < i
                    &&& cells@[groups@[g].indices@[k] as int] == groups@[g].cell
                },
            forall|g: int, k: int, l: int|
                0 <= g < groups@.len() && 0 <= k < l < groups@[g].indices@.len() ==> #[trigger] groups@[g].indices@[k]
                    < #[trigger] groups@[g].indices@[l],
            forall|j: int| 0 <= j < i ==> #[trigger] is_grouped(groups@, j),
        decreases cells@.len() - i,
    {
        let c = cells[i];
        let ghost before = groups@;
        match slot.get(&c) {
            Some(g) => {
                let g = *g;
                groups[g].indices.push(i);
                proof {
                    assert forall|h: int| 0 <= h < groups@.len() && h != g implies groups@[h] == before[h] by {}
                    let n = groups@[g as int].indices@.len() - 1;
                    assert(groups@[g as int].indices@[n] == i);
                    assert forall|j: int| 0 <= j < i + 1 implies #[trigger] is_grouped(groups@, j) by {
                        if j < i {
                            assert(is_grouped(before, j));
                            let (h, k) = choose|h: int, k: int|
                                0 <= h < before.len() && 0 <= k < before[h].indices@.len() && #[trigger] before[h].indices@[k]
                                    == j;
                            assert(groups@[h].indices@[k] == j);
                        } else {
                            assert(groups@[g as int].indices@[n] == j);
                        }
                    }
                }
            },
            None => {
                let mut indices: Vec<usize> = Vec::new();
                indices.push(i);
                let g = groups.len();
                groups.push(CellGroup { cell: c, indices });
                slot.insert(c, g);
                proof {
                    assert forall|j: int| 0 <= j < i + 1 implies #[trigger] is_grouped(groups@, j) by {
                        if j < i {
                            assert(is_grouped(before, j));
                            let (h, k) = choose|h: int, k: int|
                                0 <= h < before.len() && 0 <= k < before[h].indices@.len() && #[trigger] before[h].indices@[k]
                                    == j;
                            assert(groups@[h] == before[h]);
                        } else {
                            assert(groups@[g as int].indices@[0] == j);
                        }
                    }
                }
            },
        }
        i = i + 1;
    }
    assert forall|g: int, h: int|
        0 <= g < groups@.len() && 0 <= h < groups@.len() && g != h implies #[trigger] groups@[g].cell
        != #[trigger] groups@[h].cell by {
        assert(slot@.contains_key(groups@[g].cell));
        assert(slot@.contains_key(groups@[h].cell));
    }
    groups
}

/// Checks a batch of earth-centered positions and groups them by the cell id computed for each.
/// Fails with `LengthMismatch` when there is not one cell id per position, else with
/// `DomainError` naming the first position outside the valid band; nothing is grouped then.
pub fn split_by_cell(positions: &Vec<[i64; 3]>, cells: &Vec<u64>) -> (r: Result<
    Vec<CellGroup>,
    SplitError,
>)
    ensures
        positions@.len() != cells@.len() ==> r == Err::<Vec<CellGroup>, SplitError>(
            SplitError::LengthMismatch,
        ),
        positions@.len() == cells@.len() ==> match r {
            Ok(groups) => {
                &&& forall|j: int|
                    0 <= j < positions@.len() ==> is_valid_ecef_spec(#[trigger] positions@[j])
                &&& groups_by_cell(groups@, cells@)
            },
            Err(SplitError::DomainError(i)) => {
                &&& i < positions@.len()
                &&& !is_valid_ecef_spec(positions@[i as int])
                &&& forall|j: int| 0 <= j < i ==> is_valid_ecef_spec(#[trigger] positions@[j])
            },
            Err(SplitError::LengthMismatch) => false,
        },
{
    if positions.len() != cells.len() {
        return Err(SplitError::LengthMismatch);
    }
    match first_invalid_point(positions) {
        Some(i) => Err(SplitError::DomainError(i)),
        None => Ok(group_by_cell(cells)),
    }
}

#[verifier::external_type_specification]
#[verifier::external_body]
#[verifier::reject_recursive_types(K)]
#[verifier::reject_recursive_types(V)]
#[verifier::reject_recursive_types(S)]
pub struct ExLruCache<K, V, S>(lru::LruCache<K, V, S>);

#[verifier::external_type_specification]
#[verifier::external_body]
pub struct ExLruHasher(lru::DefaultHasher);

/// The cells that a cache of open writers holds.
pub uninterp spec fn lru_cells(c: lru::LruCache<u64, ()>) -> Set<u64>;

/// The number of cells a cache of open writers can hold.
pub uninterp spec fn lru_capacity(c: lru::LruCache<u64, ()>) -> nat;

/// Relies on `lru::LruCache::new`: an empty cache of the given capacity.
#[verifier::external_body]
fn lru_new(cap: usize) -> (r: lru::LruCache<u64, ()>)
    requires
        cap > 0,
    ensures
        lru_cells(r) == Set::<u64>::empty(),
        lru_capacity(r) == cap,
{
    lru::LruCache::new(NonZeroUsize::new(cap).unwrap())
}

/// Relies on `lru::LruCache::promote`: true exactly when the key is cached; it then becomes the
/// most recently used, and the set of keys stays.
#[verifier::external_body]
fn lru_promote(c: &mut lru::LruCache<u64, ()>, k: u64) -> (r: bool)
    ensures
        r == lru_cells(*old(c)).contains(k),
        lru_cells(*final(c)) == lru_cells(*old(c)),
        lru_capacity(*final(c)) == lru_capacity(*old(c)),
{
    c.promote(&k)
}

/// Relies on `lru::LruCache::push` for a key that is not cached: the key is added; when the cache
/// was full, one cached key (the least recently used) is removed and returned.
#[verifier::external_body]
fn lru_push(c: &mut lru::LruCache<u64, ()>, k: u64) -> (r: Option<u64>)
    requires
        !lru_cells(*old(c)).contains(k),
    ensures
        lru_capacity(*final(c)) == lru_capacity(*old(c)),
        match r {
            Some(e) => {
                &&& lru_cells(*old(c)).len() == lru_capacity(*old(c))
                &&& lru_cells(*old(c)).contains(e)
                &&& lru_cells(*final(c)) == lru_cells(*old(c)).remove(e).insert(k)
            },
            None => {
                &&& lru_cells(*old(c)).len() < lru_capacity(*old(c))
                &&& lru_cells(*final(c)) == lru_cells(*old(c)).insert(k)
            },
        },
{
    c.push(k, ()).map(|e| e.0)
}

/// What has to happen before points can be written to a cell.
#[derive(Clone, Copy, Debug, PartialEq, Eq, Structural)]
pub struct WriterAction {
    /// Open a writer for the cell in this mode; `None` when its writer is open already.
    pub open: Option<OpenMode>,
    /// Flush and close the writer of this cell first, to stay within the bound of open writers.
    pub close: Option<u64>,
}

/// Decides which cells have open writers and how each is opened. Writers are kept in a
/// least-recently-used cache of bounded size; a cell is truncated at most once, on first touch,
/// and reopened in append mode after an eviction.
pub struct S2Splitter {
    writers: lru::LruCache<u64, ()>,
    already_opened_writers: HashSet<u64>,
    open_mode: OpenMode,
}

impl S2Splitter {
    /// The cells whose writers are open.
    pub closed spec fn open_cells(&self) -> Set<u64> {
        lru_cells(self.writers)
    }

    /// The cells that were opened in truncate mode in this session.
    pub closed spec fn truncated_cells(&self) -> Set<u64> {
        self.already_opened_writers@
    }

    pub closed spec fn mode(&self) -> OpenMode {
        self.open_mode
    }

    /// At most `MAX_NUM_NODE_WRITERS` cells are open, and in truncate mode every open cell has
    /// been truncated already.
    pub closed spec fn wf(&self) -> bool {
        &&& lru_capacity(self.writers) == MAX_NUM_NODE_WRITERS
        &&& self.open_cells().finite()
        &&& self.open_cells().len() <= MAX_NUM_NODE_WRITERS
        &&& self.open_mode == OpenMode::Truncate ==> self.open_cells().subset_of(
            self.truncated_cells(),
        )
    }

    pub fn new(open_mode: OpenMode) -> (r: S2Splitter)
        ensures
            r.wf(),
            r.open_cells().finite(),
            r.mode() == open_mode,
            r.open_cells() == Set::<u64>::empty(),
            r.truncated_cells() == Set::<u64>::empty(),
    {
        S2Splitter {
            writers: lru_new(MAX_NUM_NODE_WRITERS),
            already_opened_writers: HashSet::new(),
            open_mode,
        }
    }

    /// A well-formed splitter has at most `MAX_NUM_NODE_WRITERS` open cells.
    pub proof fn lemma_open_cells_bounded(&self)
        requires
            self.wf(),
        ensures
            self.open_cells().finite(),
            self.open_cells().len() <= MAX_NUM_NODE_WRITERS,
    {
    }

    /// Makes sure `cell` has an open writer and says what that takes.
    pub fn writer(&mut self, cell: u64) -> (r: WriterAction)
        requires
            old(self).wf(),
        ensures
            final(self).wf(),
            final(self).open_cells().finite(),
            final(self).open_cells().len() <= MAX_NUM_NODE_WRITERS,
            final(self).mode() == old(self).mode(),
            final(self).open_cells().contains(cell),
            old(self).open_cells().contains(cell) ==> r.open is None && r.close is None
                && final(self).open_cells() == old(self).open_cells()
                && final(self).truncated_cells() == old(self).truncated_cells(),
            !old(self).open_cells().contains(cell) ==> {
                &&& r.open is Some
                &&& (r.open == Some(OpenMode::Truncate)) == (old(self).mode() == OpenMode::Truncate
                    && !old(self).truncated_cells().contains(cell))
                &&& final(self).truncated_cells() == if r.open == Some(OpenMode::Truncate) {
                    old(self).truncated_cells().insert(cell)
                } else {
                    old(self).truncated_cells()
                }
                &&& match r.close {
                    Some(e) => {
                        &&& old(self).open_cells().len() == MAX_NUM_NODE_WRITERS
                        &&& old(self).open_cells().contains(e)
                        &&& final(self).open_cells() == old(self).open_cells().remove(e).insert(
                            cell,
                        )
                    },
                    None => {
                        &&& old(self).open_cells().len() < MAX_NUM_NODE_WRITERS
                        &&& final(self).open_cells() == old(self).open_cells().insert(cell)
                    },
                }
            },
    {
        if lru_promote(&mut self.writers, cell) {
            return WriterAction { open: None, close: None };
        }
        let mode = if self.open_mode == OpenMode::Append || self.already_opened_writers.contains(
            &cell,
        ) {
            OpenMode::Append
        } else {
            self.already_opened_writers.insert(cell);
            OpenMode::Truncate
        };
        let close = lru_push(&mut self.writers, cell);
        WriterAction { open: Some(mode), close }
    }
}

} // verus!
