//! The position blob of a node: three quantized coordinates per point, little-endian.
use vstd::arithmetic::div_mod::lemma_fundamental_div_mod;
use vstd::prelude::*;

use crate::tile::Rgb;
use crate::encoding::{
    decode_coordinate, decode_spec, encode_coordinate, encode_spec, lemma_round_trip_error, Cube,
    PositionEncoding,
};

verus! {

/// Why a node could not be read.
#[derive(Clone, Copy, Debug, PartialEq, Eq, Structural)]
pub enum NodeError {
    /// The data ended before the announced number of points.
    MalformedData,
    /// A required attribute is missing.
    UnknownAttribute,
    /// The positions are stored as 32-bit floats, which this library does not decode.
    UnquantizedPositions,
}

/// Bytes per stored coordinate of a quantized encoding.
pub open spec fn width_spec(enc: PositionEncoding) -> nat {
    if enc == PositionEncoding::Uint8 {
        1
    } else {
        2
    }
}

/// The `k`-th stored coordinate of a blob.
pub open spec fn stored_value(bytes: Seq<u8>, enc: PositionEncoding, k: int) -> int {
    if enc == PositionEncoding::Uint8 {
        bytes[k] as int
    } else {
        bytes[2 * k] + 256 * bytes[2 * k + 1]
    }
}

/// `bytes` is the blob of `points` in `cube`.
pub open spec fn encodes(
    bytes: Seq<u8>,
    points: Seq<[i64; 3]>,
    cube: Cube,
    enc: PositionEncoding,
) -> bool {
    &&& bytes.len() == 3 * points.len() * width_spec(enc)
    &&& forall|i: int, a: int|
        0 <= i < points.len() && 0 <= a < 3 ==> #[trigger] stored_value(bytes, enc, 3 * i + a)
            == encode_spec(
            points[i][a] as int,
            cube.min[a] as int,
            cube.edge as int,
            enc.max_value_spec() as int,
        )
}

/// `points` are the first `points.len()` positions stored in `bytes`.
pub open spec fn decodes(
    points: Seq<[i64; 3]>,
    bytes: Seq<u8>,
    cube: Cube,
    enc: PositionEncoding,
) -> bool {
    forall|i: int, a: int|
        0 <= i < points.len() && 0 <= a < 3 ==> #[trigger] points[i][a] as int == decode_spec(
            stored_value(bytes, enc, 3 * i + a),
            cube.min[a] as int,
            cube.edge as int,
            enc.max_value_spec() as int,
        )
}

/// Appends `q` as stored coordinate number `k`.
fn push_value(bytes: &mut Vec<u8>, q: u16, enc: PositionEncoding, Ghost(k): Ghost<int>)
    requires
        enc.is_quantized(),
        q <= enc.max_value_spec(),
        enc == PositionEncoding::Uint8 ==> old(bytes)@.len() == k,
        enc != PositionEncoding::Uint8 ==> old(bytes)@.len() == 2 * k,
    ensures
        final(bytes)@.len() == old(bytes)@.len() + width_spec(enc),
        forall|j: int| 0 <= j < old(bytes)@.len() ==> final(bytes)@[j] == old(bytes)@[j],
        stored_value(final(bytes)@, enc, k) == q,
{
    if let PositionEncoding::Uint8 = enc {
        bytes.push(q as u8);
    } else {
        bytes.push((q % 256) as u8);
        bytes.push((q / 256) as u8);
        proof {
            lemma_fundamental_div_mod(q as int, 256);
            assert(2 * k == old(bytes)@.len());
        }
    }
}

/// The blob that stores `points` in `cube` with a quantized encoding.
pub fn encode_positions(points: &Vec<[i64; 3]>, cube: &Cube, enc: PositionEncoding) -> (r: Vec<u8>)
    requires
        enc.is_quantized(),
        cube.wf(),
        points@.len() * 6 <= usize::MAX,
    ensures
        encodes(r@, points@, *cube, enc),
{
    let mut bytes: Vec<u8> = Vec::new();
    let mut i: usize = 0;
    while i < points.len()
        invariant
            i <= points@.len(),
            enc.is_quantized(),
            cube.wf(),
            enc == PositionEncoding::Uint8 ==> bytes@.len() == 3 * i,
            enc != PositionEncoding::Uint8 ==> bytes@.len() == 6 * i,
            forall|j: int, a: int|
                0 <= j < i && 0 <= a < 3 ==> #[trigger] stored_value(bytes@, enc, 3 * j + a)
                    == encode_spec(
                    points@[j][a] as int,
                    cube.min[a] as int,
                    cube.edge as int,
                    enc.max_value_spec() as int,
                ),
        decreases points@.len() - i,
    {
        let p = points[i];
        let mut a: usize = 0;
        while a < 3
            invariant
                a <= 3,
                i < points@.len(),
                p == points@[i as int],
                enc.is_quantized(),
                cube.wf(),
                enc == PositionEncoding::Uint8 ==> bytes@.len() == 3 * i + a,
                enc != PositionEncoding::Uint8 ==> bytes@.len() == 6 * i + 2 * a,
                forall|j: int, b: int|
                    0 <= j < i && 0 <= b < 3 || j == i && 0 <= b < a ==> #[trigger] stored_value(
                        bytes@,
                        enc,
                        3 * j + b,
                    ) == encode_spec(
                        points@[j][b] as int,
                        cube.min[b] as int,
                        cube.edge as int,
                        enc.max_value_spec() as int,
                    ),
            decreases 3 - a,
        {
            let q = encode_coordinate(p[a], cube.min[a], cube.edge, enc);
            let ghost before = bytes@;
            push_value(&mut bytes, q, enc, Ghost(3 * i + a));
            proof {
                assert forall|j: int, b: int|
                    0 <= j < i && 0 <= b < 3 || j == i && 0 <= b < a + 1 implies #[trigger] stored_value(
                    bytes@,
                    enc,
                    3 * j + b,
                ) == encode_spec(
                    points@[j][b] as int,
                    cube.min[b] as int,
                    cube.edge as int,
                    enc.max_value_spec() as int,
                ) by {
                    let k = 3 * j + b;
                    if k < 3 * i + a {
                        assert(stored_value(bytes@, enc, k) == stored_value(before, enc, k)) by {
                            if enc != PositionEncoding::Uint8 {
                                assert(before.len() == 2 * (3 * i + a));
                                assert(bytes@[2 * k] == before[2 * k]);
                                assert(bytes@[2 * k + 1] == before[2 * k + 1]);
                            } else {
                                assert(before.len() == 3 * i + a);
                                assert(bytes@[k] == before[k]);
                            }
                        }
                    }
                }
            }
            a = a + 1;
        }
        i = i + 1;
    }
    assert(bytes@.len() == 3 * points@.len() * width_spec(enc));
    bytes
}

/// Reads `num_points` positions from the front of a blob; `MalformedData` when it is shorter
/// than that.
pub fn decode_positions(
    bytes: &Vec<u8>,
    num_points: usize,
    cube: &Cube,
    enc: PositionEncoding,
) -> (r: Result<Vec<[i64; 3]>, NodeError>)
    requires
        enc.is_quantized(),
        cube.wf(),
    ensures
        (3 * num_points * width_spec(enc) > bytes@.len()) <==> r == Err::<Vec<[i64; 3]>, NodeError>(
            NodeError::MalformedData,
        ),
        r is Ok ==> r->Ok_0@.len() == num_points && decodes(r->Ok_0@, bytes@, *cube, enc),
        r is Ok || r == Err::<Vec<[i64; 3]>, NodeError>(NodeError::MalformedData),
{
    let w: usize = if let PositionEncoding::Uint8 = enc {
        1
    } else {
        2
    };
    let per_point = 3 * w;
    let len = bytes.len();
    proof {
        lemma_fundamental_div_mod(len as int, per_point as int);
        assert((num_points > len / per_point) <==> (3 * num_points * w > len)) by (nonlinear_arith)
            requires
                len == per_point * (len / per_point) + len % per_point,
                0 <= len % per_point < per_point,
                per_point == 3 * w,
                w > 0,
        ;
    }
    if num_points > len / per_point {
        return Err(NodeError::MalformedData);
    }
    let mut out: Vec<[i64; 3]> = Vec::new();
    let mut i: usize = 0;
    while i < num_points
        invariant
            i <= num_points,
            3 * num_points * w <= len,
            len == bytes@.len(),
            w == width_spec(enc),
            enc.is_quantized(),
            cube.wf(),
            out@.len() == i,
            decodes(out@, bytes@, *cube, enc),
        decreases num_points - i,
    {
        let mut p: [i64; 3] = [0, 0, 0];
        let mut a: usize = 0;
        while a < 3
            invariant
                a <= 3,
                i < num_points,
                3 * num_points * w <= len,
                len == bytes@.len(),
                w == width_spec(enc),
                enc.is_quantized(),
                cube.wf(),
                forall|b: int|
                    0 <= b < a ==> #[trigger] p[b] as int == decode_spec(
                        stored_value(bytes@, enc, 3 * i + b),
                        cube.min[b] as int,
                        cube.edge as int,
                        enc.max_value_spec() as int,
                    ),
            decreases 3 - a,
        {
            let k = 3 * i + a;
            assert((k + 1) * w <= 3 * num_points * w) by (nonlinear_arith)
                requires
                    k == 3 * i + a,
                    a < 3,
                    i < num_points,
                    w > 0,
            ;
            let q: u16 = if w == 1 {
                bytes[k] as u16
            } else {
                bytes[2 * k] as u16 + 256 * (bytes[2 * k + 1] as u16)
            };
            assert(q as int == stored_value(bytes@, enc, k as int));
            let c = decode_coordinate(q, cube.min[a], cube.edge, enc);
            p[a] = c;
            a = a + 1;
        }
        let ghost before = out@;
        out.push(p);
        proof {
            assert forall|j: int, b: int| 0 <= j < out@.len() && 0 <= b < 3 implies #[trigger] out@[j][b]
                as int == decode_spec(
                stored_value(bytes@, enc, 3 * j + b),
                cube.min[b] as int,
                cube.edge as int,
                enc.max_value_spec() as int,
            ) by {
                if j < i {
                    assert(out@[j] == before[j]);
                }
            }
        }
        i = i + 1;
    }
    Ok(out)
}

/// `bytes` is the color blob of `colors`: red, green and blue of each point in turn.
pub open spec fn encodes_colors(bytes: Seq<u8>, colors: Seq<Rgb>) -> bool {
    &&& bytes.len() == 3 * colors.len()
    &&& forall|i: int|
        0 <= i < colors.len() ==> {
            &&& bytes[3 * i] == (#[trigger] colors[i]).red
            &&& bytes[3 * i + 1] == colors[i].green
            &&& bytes[3 * i + 2] == colors[i].blue
        }
}

/// `colors` are the first `colors.len()` colors stored in `bytes`.
pub open spec fn decodes_colors(colors: Seq<Rgb>, bytes: Seq<u8>) -> bool {
    forall|i: int|
        0 <= i < colors.len() ==> #[trigger] colors[i] == Rgb {
            red: bytes[3 * i],
            green: bytes[3 * i + 1],
            blue: bytes[3 * i + 2],
        }
}

/// The color blob of `colors`.
pub fn encode_colors(colors: &Vec<Rgb>) -> (r: Vec<u8>)
    requires
        colors@.len() * 3 <= usize::MAX,
    ensures
        encodes_colors(r@, colors@),
{
    let mut bytes: Vec<u8> = Vec::new();
    let mut i: usize = 0;
    while i < colors.len()
        invariant
            i <= colors@.len(),
            bytes@.len() == 3 * i,
            forall|j: int|
                0 <= j < i ==> {
                    &&& bytes@[3 * j] == (#[trigger] colors@[j]).red
                    &&& bytes@[3 * j + 1] == colors@[j].green
                    &&& bytes@[3 * j + 2] == colors@[j].blue
                },
        decreases colors@.len() - i,
    {
        let c = colors[i];
        bytes.push(c.red);
        bytes.push(c.green);
        bytes.push(c.blue);
        i = i + 1;
    }
    bytes
}

/// Reads `num_points` colors from the front of a color blob; `MalformedData` when it is shorter
/// than that.
pub fn decode_colors(bytes: &Vec<u8>, num_points: usize) -> (r: Result<Vec<Rgb>, NodeError>)
    ensures
        (3 * num_points > bytes@.len()) <==> r == Err::<Vec<Rgb>, NodeError>(
            NodeError::MalformedData,
        ),
        r is Ok ==> r->Ok_0@.len() == num_points && decodes_colors(r->Ok_0@, bytes@),
        r is Ok || r == Err::<Vec<Rgb>, NodeError>(NodeError::MalformedData),
{
    if num_points > bytes.len() / 3 {
        return Err(NodeError::MalformedData);
    }
    let len = bytes.len();
    let mut out: Vec<Rgb> = Vec::new();
    let mut i: usize = 0;
    while i < num_points
        invariant
            i <= num_points,
            len == bytes@.len(),
            3 * num_points <= bytes@.len(),
            out@.len() == i,
            decodes_colors(out@, bytes@),
        decreases num_points - i,
    {
        let c = Rgb { red: bytes[3 * i], green: bytes[3 * i + 1], blue: bytes[3 * i + 2] };
        out.push(c);
        i = i + 1;
    }
    Ok(out)
}

/// Colors read back are the colors written.
pub proof fn lemma_colors_round_trip(colors: Seq<Rgb>, bytes: Seq<u8>, decoded: Seq<Rgb>)
    requires
        encodes_colors(bytes, colors),
        decoded.len() == colors.len(),
        decodes_colors(decoded, bytes),
    ensures
        decoded == colors,
{
    assert forall|i: int| 0 <= i < colors.len() implies decoded[i] == colors[i] by {
        assert(decoded[i] == Rgb { red: bytes[3 * i], green: bytes[3 * i + 1], blue: bytes[3 * i + 2] });
        assert(bytes[3 * i] == colors[i].red);
    }
    assert(decoded =~= colors);
}

/// Writing positions and reading them back gives each coordinate within one quantization step
/// (`edge / (2^bits - 1)`) of the coordinate written.
pub proof fn lemma_positions_round_trip(
    points: Seq<[i64; 3]>,
    cube: Cube,
    enc: PositionEncoding,
    bytes: Seq<u8>,
    decoded: Seq<[i64; 3]>,
)
    requires
        enc.is_quantized(),
        cube.wf(),
        forall|i: int| 0 <= i < points.len() ==> cube.contains_spec(#[trigger] points[i]),
        encodes(bytes, points, cube, enc),
        decoded.len() == points.len(),
        decodes(decoded, bytes, cube, enc),
    ensures
        forall|i: int, a: int|
            0 <= i < points.len() && 0 <= a < 3 ==> {
                &&& enc.max_value_spec() * (#[trigger] decoded[i][a] - points[i][a]) <= cube.edge
                &&& enc.max_value_spec() * (points[i][a] - decoded[i][a]) <= cube.edge
            },
{
    assert forall|i: int, a: int| 0 <= i < points.len() && 0 <= a < 3 implies {
        &&& enc.max_value_spec() * (#[trigger] decoded[i][a] - points[i][a]) <= cube.edge
        &&& enc.max_value_spec() * (points[i][a] - decoded[i][a]) <= cube.edge
    } by {
        assert(cube.contains_spec(points[i]));
        assert(cube.min[a] <= points[i][a] <= cube.min[a] + cube.edge);
        assert(stored_value(bytes, enc, 3 * i + a) == encode_spec(
            points[i][a] as int,
            cube.min[a] as int,
            cube.edge as int,
            enc.max_value_spec() as int,
        ));
        lemma_round_trip_error(
            points[i][a] as int,
            cube.min[a] as int,
            cube.edge as int,
            enc.max_value_spec() as int,
        );
    }
}

} // verus!
