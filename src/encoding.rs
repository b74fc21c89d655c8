//! Quantization of positions inside a node's bounding cube.
//!
//! Positions are integer coordinates (millimetres). A node stores each axis as an offset from
//! its cube's minimum corner, scaled to `[0, 2^bits - 1]`; the number of bits follows from the
//! cube's edge length and the octree's resolution, so it is never stored per node.
use vstd::arithmetic::div_mod::lemma_fundamental_div_mod;
use vstd::prelude::*;

verus! {

/// An axis-aligned cube: minimum corner and edge length.
#[derive(Clone, Copy, Debug)]
pub struct Cube {
    pub min: [i64; 3],
    pub edge: u64,
}

impl Cube {
    /// The edge is positive and the maximum corner is representable.
    pub open spec fn wf(self) -> bool {
        &&& self.edge > 0
        &&& forall|a: int| 0 <= a < 3 ==> self.min[a] + self.edge <= i64::MAX
    }

    /// Whether `p` lies in the cube, faces included.
    pub open spec fn contains_spec(self, p: [i64; 3]) -> bool {
        forall|a: int| 0 <= a < 3 ==> self.min[a] <= #[trigger] p[a] <= self.min[a] + self.edge
    }
}

impl Cube {
    /// The cube of octant `child`: half the edge, moved up along each axis whose bit is set
    /// (bit 0: x, bit 1: y, bit 2: z).
    pub open spec fn child_spec(self, child: nat) -> Cube {
        let h = self.edge / 2;
        Cube {
            min: [
                (self.min[0] + if child % 2 == 1 { h } else { 0 }) as i64,
                (self.min[1] + if (child / 2) % 2 == 1 { h } else { 0 }) as i64,
                (self.min[2] + if (child / 4) % 2 == 1 { h } else { 0 }) as i64,
            ],
            edge: h as u64,
        }
    }

    pub fn child(&self, child: u8) -> (r: Cube)
        requires
            self.wf(),
            self.edge >= 2,
            child < 8,
        ensures
            r == self.child_spec(child as nat),
            r.wf(),
            forall|p: [i64; 3]| r.contains_spec(p) ==> self.contains_spec(p),
    {
        let h = self.edge / 2;
        let dx: u64 = if child % 2 == 1 { h } else { 0 };
        let dy: u64 = if (child / 2) % 2 == 1 { h } else { 0 };
        let dz: u64 = if (child / 4) % 2 == 1 { h } else { 0 };
        let r = Cube {
            min: [
                (self.min[0] as i128 + dx as i128) as i64,
                (self.min[1] as i128 + dy as i128) as i64,
                (self.min[2] as i128 + dz as i128) as i64,
            ],
            edge: h,
        };
        assert(r.min[0] == self.min[0] + dx && r.min[1] == self.min[1] + dy && r.min[2] == self.min[2] + dz);
        assert forall|p: [i64; 3]| r.contains_spec(p) implies self.contains_spec(p) by {
            assert forall|a: int| 0 <= a < 3 implies self.min[a] <= #[trigger] p[a] <= self.min[a] + self.edge by {
                assert(r.min[a] <= p[a] <= r.min[a] + r.edge);
            }
        }
        r
    }
}

/// How a node stores each coordinate of a position.
#[derive(Clone, Copy, Debug, PartialEq, Eq, Structural)]
pub enum PositionEncoding {
    /// One byte per axis.
    Uint8,
    /// Two bytes per axis.
    Uint16,
    /// Four bytes per axis holding the coordinate itself, for cubes too large to quantize.
    Float32,
}

impl PositionEncoding {
    /// The number of bits per axis of a quantized encoding.
    pub open spec fn bits_spec(self) -> nat {
        match self {
            PositionEncoding::Uint8 => 8,
            PositionEncoding::Uint16 => 16,
            PositionEncoding::Float32 => 32,
        }
    }

    /// The largest stored value: `2^bits - 1`.
    pub open spec fn max_value_spec(self) -> nat {
        match self {
            PositionEncoding::Uint8 => 255,
            PositionEncoding::Uint16 => 65535,
            PositionEncoding::Float32 => 0xffff_ffff,
        }
    }

    /// The encoding with the fewest bytes whose step `edge / 2^bits` is at most `resolution`.
    pub open spec fn select_spec(edge: nat, resolution: nat) -> PositionEncoding {
        if edge <= resolution * 256 {
            PositionEncoding::Uint8
        } else if edge <= resolution * 65536 {
            PositionEncoding::Uint16
        } else {
            PositionEncoding::Float32
        }
    }

    /// Chooses the encoding of a node from its bounding cube and the octree's resolution.
    pub fn new(cube: &Cube, resolution: u64) -> (r: PositionEncoding)
        requires
            resolution > 0,
        ensures
            r == Self::select_spec(cube.edge as nat, resolution as nat),
    {
        let res = resolution as u128;
        let edge = cube.edge as u128;
        if edge <= res * 256 {
            PositionEncoding::Uint8
        } else if edge <= res * 65536 {
            PositionEncoding::Uint16
        } else {
            PositionEncoding::Float32
        }
    }

    pub fn bytes_per_coordinate(&self) -> (r: usize)
        ensures
            r * 8 == self.bits_spec(),
    {
        match self {
            PositionEncoding::Uint8 => 1,
            PositionEncoding::Uint16 => 2,
            PositionEncoding::Float32 => 4,
        }
    }

    pub open spec fn is_quantized(self) -> bool {
        self != PositionEncoding::Float32
    }
}

/// The stored value of an offset `d` in `[0, edge]`: `d * max / edge`, rounded to nearest.
pub open spec fn quantize(d: int, edge: int, max: int) -> int {
    (2 * d * max + edge) / (2 * edge)
}

/// The offset that a stored value `q` stands for: `q * edge / max`, rounded to nearest.
pub open spec fn dequantize(q: int, edge: int, max: int) -> int {
    (2 * q * edge + max) / (2 * max)
}

/// The stored value of coordinate `x` on an axis whose cube starts at `min`; coordinates
/// outside the cube are clamped to its faces.
pub open spec fn encode_spec(x: int, min: int, edge: int, max: int) -> int {
    if x < min {
        0
    } else if x > min + edge {
        max
    } else {
        quantize(x - min, edge, max)
    }
}

pub open spec fn decode_spec(q: int, min: int, edge: int, max: int) -> int {
    min + dequantize(q, edge, max)
}

/// Encodes one coordinate with a quantized encoding.
pub fn encode_coordinate(x: i64, min: i64, edge: u64, encoding: PositionEncoding) -> (r: u16)
    requires
        encoding.is_quantized(),
        edge > 0,
        min + edge <= i64::MAX,
    ensures
        r as int == encode_spec(
            x as int,
            min as int,
            edge as int,
            encoding.max_value_spec() as int,
        ),
        r <= encoding.max_value_spec(),
{
    let max: u128 = if let PositionEncoding::Uint8 = encoding {
        255
    } else {
        65535
    };
    if x < min {
        0
    } else if x as i128 > min as i128 + edge as i128 {
        max as u16
    } else {
        let d = (x as i128 - min as i128) as u128;
        let e = edge as u128;
        proof {
            lemma_quantize_bound(d as int, e as int, max as int);
        }
        assert(2 * d * max + e <= 2 * e * 65536) by (nonlinear_arith)
            requires
                d <= e,
                max <= 65535,
        ;
        assert(2 * e * 65536 <= 0x1_0000_0000_0000_0000_0000_0000u128) by (nonlinear_arith)
            requires
                e <= 0xffff_ffff_ffff_ffffu128,
        ;
        ((2 * d * max + e) / (2 * e)) as u16
    }
}

/// Decodes one coordinate stored with a quantized encoding.
pub fn decode_coordinate(q: u16, min: i64, edge: u64, encoding: PositionEncoding) -> (r: i64)
    requires
        encoding.is_quantized(),
        q <= encoding.max_value_spec(),
        edge > 0,
        min + edge <= i64::MAX,
    ensures
        r as int == decode_spec(q as int, min as int, edge as int, encoding.max_value_spec() as int),
        min <= r <= min + edge,
{
    let max: u128 = if let PositionEncoding::Uint8 = encoding {
        255
    } else {
        65535
    };
    let e = edge as u128;
    let qq = q as u128;
    proof {
        lemma_dequantize_bound(qq as int, e as int, max as int);
    }
    assert(2 * qq * e + max <= 2 * 65536 * e + 65536) by (nonlinear_arith)
        requires
            qq <= max,
            max <= 65535,
    ;
    let d = (2 * qq * e + max) / (2 * max);
    (min as i128 + d as i128) as i64
}

proof fn lemma_quantize_bound(d: int, edge: int, max: int)
    requires
        0 <= d <= edge,
        edge > 0,
        max > 0,
    ensures
        0 <= quantize(d, edge, max) <= max,
{
    let a = 2 * d * max + edge;
    lemma_fundamental_div_mod(a, 2 * edge);
    let q = a / (2 * edge);
    assert(a <= 2 * edge * max + edge) by (nonlinear_arith)
        requires
            a == 2 * d * max + edge,
            d <= edge,
            max > 0,
    ;
    assert(0 <= q <= max) by (nonlinear_arith)
        requires
            a == 2 * edge * q + a % (2 * edge),
            0 <= a % (2 * edge) < 2 * edge,
            a <= 2 * edge * max + edge,
            a >= 0,
            edge > 0,
    ;
}

proof fn lemma_dequantize_bound(q: int, edge: int, max: int)
    requires
        0 <= q <= max,
        edge > 0,
        max > 0,
    ensures
        0 <= dequantize(q, edge, max) <= edge,
{
    let b = 2 * q * edge + max;
    lemma_fundamental_div_mod(b, 2 * max);
    let r = b / (2 * max);
    assert(b <= 2 * max * edge + max) by (nonlinear_arith)
        requires
            b == 2 * q * edge + max,
            q <= max,
            edge > 0,
    ;
    assert(0 <= r <= edge) by (nonlinear_arith)
        requires
            b == 2 * max * r + b % (2 * max),
            0 <= b % (2 * max) < 2 * max,
            b <= 2 * max * edge + max,
            b >= 0,
            max > 0,
    ;
}

/// Quantization error is bounded by one step: for a coordinate `x` inside the cube, the decoded
/// value differs from `x` by at most `edge / (2^bits - 1)`.
pub proof fn lemma_round_trip_error(x: int, min: int, edge: int, max: int)
    requires
        edge > 0,
        max > 0,
        min <= x <= min + edge,
    ensures
        max * (decode_spec(encode_spec(x, min, edge, max), min, edge, max) - x) <= edge,
        max * (x - decode_spec(encode_spec(x, min, edge, max), min, edge, max)) <= edge,
{
    let d = x - min;
    let a = 2 * d * max + edge;
    lemma_fundamental_div_mod(a, 2 * edge);
    let q = a / (2 * edge);
    lemma_quantize_bound(d, edge, max);
    let b = 2 * q * edge + max;
    lemma_fundamental_div_mod(b, 2 * max);
    let r = b / (2 * max);
    assert(encode_spec(x, min, edge, max) == q);
    assert(decode_spec(q, min, edge, max) == min + r);
    // `q * edge` is within `edge / 2` of `d * max`, and `r * max` within `max / 2` of `q * edge`.
    assert(2 * (edge * q) <= 2 * d * max + edge && 2 * d * max + edge < 2 * (edge * q) + 2 * edge)
        by (nonlinear_arith)
        requires
            a == 2 * edge * q + a % (2 * edge),
            0 <= a % (2 * edge) < 2 * edge,
            a == 2 * d * max + edge,
    ;
    assert(2 * (max * r) <= 2 * q * edge + max && 2 * q * edge + max < 2 * (max * r) + 2 * max)
        by (nonlinear_arith)
        requires
            b == 2 * max * r + b % (2 * max),
            0 <= b % (2 * max) < 2 * max,
            b == 2 * q * edge + max,
    ;
    assert(max * (r - d) <= edge && max * (d - r) <= edge) by (nonlinear_arith)
        requires
            2 * (edge * q) <= 2 * d * max + edge,
            2 * d * max + edge < 2 * (edge * q) + 2 * edge,
            2 * (max * r) <= 2 * q * edge + max,
            2 * q * edge + max < 2 * (max * r) + 2 * max,
            max > 0,
            edge > 0,
    ;
}

} // verus!
