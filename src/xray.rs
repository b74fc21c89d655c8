//! Discretization of points into image pixels and the per-pixel occupancy that an X-Ray image
//! is drawn from.
use std::collections::HashMap;
use std::collections::HashSet;
use vstd::arithmetic::div_mod::lemma_fundamental_div_mod_converse;
use vstd::prelude::*;

use crate::query::Aabb;

verus! {

broadcast use vstd::std_specs::hash::group_hash_axioms;

/// The number of height buckets the box is divided into along z. The more buckets of a pixel
/// hold a point, the darker that pixel becomes.
pub const NUM_Z_BUCKETS: u32 = 1024;

/// Every side of the box has positive length.
pub open spec fn box_wf(b: Aabb) -> bool {
    forall|a: int| 0 <= a < 3 ==> b.min[a] < #[trigger] b.max[a]
}

/// `floor(offset * n / length)`.
pub open spec fn scale(offset: int, n: int, length: int) -> int {
    (offset * n) / length
}

/// The pixel column, pixel row and height bucket of `p`. World `y` runs up while image rows run
/// down, so the row is counted from the top of the box.
pub open spec fn discretize_spec(p: [i64; 3], b: Aabb, width: u32, height: u32) -> (int, int, int) {
    (
        scale(p[0] - b.min[0], width as int, b.max[0] - b.min[0]),
        scale(b.max[1] - p[1], height as int, b.max[1] - b.min[1]),
        scale(p[2] - b.min[2], NUM_Z_BUCKETS as int, b.max[2] - b.min[2]),
    )
}

fn scale_exec(offset: i128, n: u32, length: i128) -> (r: u32)
    requires
        0 <= offset <= length,
        length > 0,
        length < 0x1_0000_0000_0000_0000,
    ensures
        r == scale(offset as int, n as int, length as int),
        r <= n,
{
    assert(0 <= offset * n <= length * n) by (nonlinear_arith)
        requires
            0 <= offset <= length,
            n >= 0,
    ;
    assert(length * n < 0x1_0000_0000_0000_0000_0000_0000) by (nonlinear_arith)
        requires
            length < 0x1_0000_0000_0000_0000,
            n < 0x1_0000_0000,
    ;
    let r = (offset * n as i128) / length;
    proof {
        let o = offset as int;
        let l = length as int;
        let m = n as int;
        vstd::arithmetic::div_mod::lemma_div_is_ordered(o * m, l * m, l);
        vstd::arithmetic::div_mod::lemma_div_multiples_vanish(m, l);
        assert(l * m == m * l) by (nonlinear_arith);
        vstd::arithmetic::div_mod::lemma_div_pos_is_pos(o * m, l);
    }
    r as u32
}

/// The pixel column, pixel row and height bucket of a point inside the box `b`, for an image of
/// `width` by `height` pixels. A point on the maximum face lands one past the last column or
/// bucket, and one on the minimum `y` face one past the last row.
pub fn discretize(p: [i64; 3], b: &Aabb, width: u32, height: u32) -> (r: (u32, u32, u32))
    requires
        box_wf(*b),
        b.contains_spec(p),
    ensures
        (r.0 as int, r.1 as int, r.2 as int) == discretize_spec(p, *b, width, height),
        r.0 <= width,
        r.1 <= height,
        r.2 <= NUM_Z_BUCKETS,
{
    assert(b.min[0] <= p[0] <= b.max[0] && b.min[0] < b.max[0]);
    assert(b.min[1] <= p[1] <= b.max[1] && b.min[1] < b.max[1]);
    assert(b.min[2] <= p[2] <= b.max[2] && b.min[2] < b.max[2]);
    let x = scale_exec(
        p[0] as i128 - b.min[0] as i128,
        width,
        b.max[0] as i128 - b.min[0] as i128,
    );
    let y = scale_exec(
        b.max[1] as i128 - p[1] as i128,
        height,
        b.max[1] as i128 - b.min[1] as i128,
    );
    let z = scale_exec(
        p[2] as i128 - b.min[2] as i128,
        NUM_Z_BUCKETS,
        b.max[2] as i128 - b.min[2] as i128,
    );
    (x, y, z)
}

pub open spec fn pixel_key(x: u32, y: u32) -> u64 {
    (x * 0x1_0000_0000 + y) as u64
}

pub open spec fn bucket_key(x: u32, y: u32, z: u32) -> u128 {
    (pixel_key(x, y) * 0x1_0000_0000 + z) as u128
}

proof fn lemma_pixel_key_injective(x1: u32, y1: u32, x2: u32, y2: u32)
    ensures
        pixel_key(x1, y1) == pixel_key(x2, y2) ==> x1 == x2 && y1 == y2,
        pixel_key(x1, y1) == x1 * 0x1_0000_0000 + y1,
{
    assert(x1 * 0x1_0000_0000 + y1 < 0x1_0000_0000_0000_0000) by (nonlinear_arith)
        requires
            x1 < 0x1_0000_0000,
            y1 < 0x1_0000_0000,
    ;
    assert(x2 * 0x1_0000_0000 + y2 < 0x1_0000_0000_0000_0000) by (nonlinear_arith)
        requires
            x2 < 0x1_0000_0000,
            y2 < 0x1_0000_0000,
    ;
    if pixel_key(x1, y1) == pixel_key(x2, y2) {
        let k = x1 * 0x1_0000_0000 + y1;
        lemma_fundamental_div_mod_converse(k, 0x1_0000_0000, x1 as int, y1 as int);
        lemma_fundamental_div_mod_converse(k, 0x1_0000_0000, x2 as int, y2 as int);
    }
}

proof fn lemma_bucket_key_injective(x1: u32, y1: u32, z1: u32, x2: u32, y2: u32, z2: u32)
    ensures
        bucket_key(x1, y1, z1) == bucket_key(x2, y2, z2) ==> pixel_key(x1, y1) == pixel_key(x2, y2)
            && z1 == z2,
{
    lemma_pixel_key_injective(x1, y1, x2, y2);
    lemma_pixel_key_injective(x2, y2, x1, y1);
    let ka = pixel_key(x1, y1);
    let kb = pixel_key(x2, y2);
    assert(ka * 0x1_0000_0000 + z1 < 0x1_0000_0000_0000_0000_0000_0000) by (nonlinear_arith)
        requires
            ka < 0x1_0000_0000_0000_0000,
            z1 < 0x1_0000_0000,
    ;
    assert(kb * 0x1_0000_0000 + z2 < 0x1_0000_0000_0000_0000_0000_0000) by (nonlinear_arith)
        requires
            kb < 0x1_0000_0000_0000_0000,
            z2 < 0x1_0000_0000,
    ;
    if bucket_key(x1, y1, z1) == bucket_key(x2, y2, z2) {
        let k = ka * 0x1_0000_0000 + z1;
        lemma_fundamental_div_mod_converse(k, 0x1_0000_0000, ka as int, z1 as int);
        lemma_fundamental_div_mod_converse(k, 0x1_0000_0000, kb as int, z2 as int);
    }
}

/// The distinct height buckets that the points of each pixel fall into.
pub struct XRayBuckets {
    buckets: HashSet<u128>,
    counts: HashMap<u64, u64>,
    occupied: Ghost<Map<u64, Set<u32>>>,
}

impl XRayBuckets {
    /// The height buckets seen so far in pixel `(x, y)`.
    pub closed spec fn buckets_of(&self, x: u32, y: u32) -> Set<u32> {
        if self.occupied@.contains_key(pixel_key(x, y)) {
            self.occupied@[pixel_key(x, y)]
        } else {
            Set::empty()
        }
    }

    pub closed spec fn wf(&self) -> bool {
        &&& forall|k: u64| #[trigger]
            self.counts@.contains_key(k) <==> self.occupied@.contains_key(k)
        &&& forall|k: u64| #[trigger]
            self.occupied@.contains_key(k) ==> self.occupied@[k].finite()
                && self.counts@[k] == self.occupied@[k].len()
        &&& forall|x: u32, y: u32, z: u32| #[trigger]
            self.buckets@.contains(bucket_key(x, y, z)) <==> self.occupied@.contains_key(
                pixel_key(x, y),
            ) && self.occupied@[pixel_key(x, y)].contains(z)
    }

    pub fn new() -> (r: XRayBuckets)
        ensures
            r.wf(),
            forall|x: u32, y: u32| #[trigger] r.buckets_of(x, y) == Set::<u32>::empty(),
    {
        XRayBuckets { buckets: HashSet::new(), counts: HashMap::new(), occupied: Ghost(Map::empty()) }
    }

    /// Records a point that fell into pixel `(x, y)` and height bucket `z`.
    pub fn process_discretized_point(&mut self, x: u32, y: u32, z: u32)
        requires
            old(self).wf(),
        ensures
            final(self).wf(),
            final(self).buckets_of(x, y) == old(self).buckets_of(x, y).insert(z),
            forall|u: u32, v: u32|
                (u, v) != (x, y) ==> #[trigger] final(self).buckets_of(u, v) == old(self).buckets_of(
                    u,
                    v,
                ),
    {
        proof {
            lemma_pixel_key_injective(x, y, x, y);
            lemma_bucket_key_injective(x, y, z, x, y, z);
        }
        let pk: u64 = (x as u64) * 0x1_0000_0000 + y as u64;
        assert(pk == pixel_key(x, y));
        assert(pk * 0x1_0000_0000 + z < 0x1_0000_0000_0000_0000_0000_0000) by (nonlinear_arith)
            requires
                pk < 0x1_0000_0000_0000_0000,
                z < 0x1_0000_0000,
        ;
        let bk: u128 = (pk as u128) * 0x1_0000_0000 + z as u128;
        assert(bk == bucket_key(x, y, z));
        if self.buckets.contains(&bk) {
            assert(self.buckets@.contains(bucket_key(x, y, z)));
            assert(self.buckets_of(x, y) =~= self.buckets_of(x, y).insert(z));
            return;
        }
        let ghost old_set = self.buckets_of(x, y);
        assert(!self.buckets@.contains(bucket_key(x, y, z)));
        assert(!old_set.contains(z));
        let c: u64 = match self.counts.get(&pk) {
            Some(c) => *c,
            None => 0,
        };
        assert(c == old_set.len());
        // A pixel holds at most 2^32 distinct buckets.
        proof {
            if !self.occupied@.contains_key(pk) {
                assert(old_set == Set::<u32>::empty());
            }
            lemma_u32_set_len(old_set);
        }
        self.buckets.insert(bk);
        self.counts.insert(pk, c + 1);
        let ghost new_set = old_set.insert(z);
        self.occupied = Ghost(self.occupied@.insert(pk, new_set));
        proof {
            assert forall|u: u32, v: u32, w: u32| #[trigger]
                self.buckets@.contains(bucket_key(u, v, w)) <==> self.occupied@.contains_key(
                    pixel_key(u, v),
                ) && self.occupied@[pixel_key(u, v)].contains(w) by {
                lemma_bucket_key_injective(u, v, w, x, y, z);
            }
            assert forall|u: u32, v: u32|
                (u, v) != (x, y) implies #[trigger] self.buckets_of(u, v) == old(self).buckets_of(
                u,
                v,
            ) by {
                lemma_pixel_key_injective(u, v, x, y);
            }
        }
    }

    /// The number of distinct height buckets seen in pixel `(x, y)`; zero for an empty pixel.
    pub fn bucket_count(&self, x: u32, y: u32) -> (r: u64)
        requires
            self.wf(),
        ensures
            r == self.buckets_of(x, y).len(),
    {
        proof {
            lemma_pixel_key_injective(x, y, x, y);
        }
        let pk: u64 = (x as u64) * 0x1_0000_0000 + y as u64;
        match self.counts.get(&pk) {
            Some(c) => *c,
            None => 0,
        }
    }
}

/// The height buckets that the points of `points` inside `b` put into pixel `(x, y)`.
pub open spec fn buckets_from(
    points: Seq<[i64; 3]>,
    b: Aabb,
    width: u32,
    height: u32,
    x: u32,
    y: u32,
) -> Set<u32> {
    Set::new(
        |z: u32|
            exists|j: int|
                0 <= j < points.len() && b.contains_spec(points[j]) && #[trigger] discretize_spec(
                    points[j],
                    b,
                    width,
                    height,
                ) == (x as int, y as int, z as int),
    )
}

/// Collects the X-Ray occupancy of the points inside `b` for an image of `width` by `height`
/// pixels. `None` when no point lies inside `b`: there is no image to draw then.
pub fn xray_buckets_from_points(points: &Vec<[i64; 3]>, b: &Aabb, width: u32, height: u32) -> (r:
    Option<XRayBuckets>)
    requires
        box_wf(*b),
    ensures
        r is None <==> forall|j: int| 0 <= j < points@.len() ==> !b.contains_spec(#[trigger] points@[j]),
        r is Some ==> r->Some_0.wf() && forall|x: u32, y: u32| #[trigger] r->Some_0.buckets_of(x, y)
            == buckets_from(points@, *b, width, height, x, y),
{
    let mut acc = XRayBuckets::new();
    let mut seen_any_points = false;
    let mut i: usize = 0;
    while i < points.len()
        invariant
            i <= points@.len(),
            box_wf(*b),
            acc.wf(),
            seen_any_points <==> exists|j: int| 0 <= j < i && b.contains_spec(#[trigger] points@[j]),
            forall|x: u32, y: u32| #[trigger] acc.buckets_of(x, y)
                == buckets_from(points@.take(i as int), *b, width, height, x, y),
        decreases points@.len() - i,
    {
        let p = points[i];
        let ghost before = acc;
        if b.contains(&p) {
            seen_any_points = true;
            let (x, y, z) = discretize(p, b, width, height);
            acc.process_discretized_point(x, y, z);
        }
        proof {
            let next = points@.take(i + 1);
            assert(next.take(i as int) =~= points@.take(i as int));
            assert forall|u: u32, v: u32| #[trigger] acc.buckets_of(u, v)
                == buckets_from(next, *b, width, height, u, v) by {
                let prev = points@.take(i as int);
                assert forall|w: u32| #[trigger] buckets_from(next, *b, width, height, u, v).contains(w)
                    <==> acc.buckets_of(u, v).contains(w) by {
                    if buckets_from(next, *b, width, height, u, v).contains(w) {
                        let j = choose|j: int|
                            0 <= j < next.len() && b.contains_spec(next[j]) && #[trigger] discretize_spec(
                                next[j],
                                *b,
                                width,
                                height,
                            ) == (u as int, v as int, w as int);
                        if j < i {
                            assert(prev[j] == next[j]);
                            assert(buckets_from(prev, *b, width, height, u, v).contains(w));
                        }
                    }
                    if before.buckets_of(u, v).contains(w) {
                        assert(buckets_from(prev, *b, width, height, u, v).contains(w));
                        let j = choose|j: int|
                            0 <= j < prev.len() && b.contains_spec(prev[j]) && #[trigger] discretize_spec(
                                prev[j],
                                *b,
                                width,
                                height,
                            ) == (u as int, v as int, w as int);
                        assert(next[j] == prev[j]);
                    }
                    if acc.buckets_of(u, v).contains(w) && !before.buckets_of(u, v).contains(w) {
                        assert(next[i as int] == p);
                    }
                }
                assert(acc.buckets_of(u, v) =~= buckets_from(next, *b, width, height, u, v));
            }
            if b.contains_spec(p) {
                assert(points@[i as int] == p);
            }
        }
        i = i + 1;
    }
    proof {
        assert(points@.take(points@.len() as int) =~= points@);
    }
    if seen_any_points {
        Some(acc)
    } else {
        None
    }
}

/// The color of a point.
#[derive(Clone, Copy, Debug, PartialEq, Eq, Structural)]
pub struct Rgba {
    pub red: u8,
    pub green: u8,
    pub blue: u8,
    pub alpha: u8,
}

/// Channel `c` (0: red, 1: green, 2: blue, 3: alpha) of a color.
pub open spec fn channel(color: Rgba, c: int) -> int {
    if c == 0 {
        color.red as int
    } else if c == 1 {
        color.green as int
    } else if c == 2 {
        color.blue as int
    } else {
        color.alpha as int
    }
}

/// The sum of channel `c` over `colors`.
pub open spec fn channel_sum(colors: Seq<Rgba>, c: int) -> int
    decreases colors.len(),
{
    if colors.len() == 0 {
        0
    } else {
        channel_sum(colors.drop_last(), c) + channel(colors.last(), c)
    }
}

/// The mean color of a non-empty sequence, each channel rounded down.
pub open spec fn mean_color(colors: Seq<Rgba>) -> Rgba {
    Rgba {
        red: (channel_sum(colors, 0) / colors.len() as int) as u8,
        green: (channel_sum(colors, 1) / colors.len() as int) as u8,
        blue: (channel_sum(colors, 2) / colors.len() as int) as u8,
        alpha: (channel_sum(colors, 3) / colors.len() as int) as u8,
    }
}

proof fn lemma_channel_sum_bound(colors: Seq<Rgba>, c: int)
    ensures
        0 <= channel_sum(colors, c) <= 255 * colors.len(),
    decreases colors.len(),
{
    if colors.len() > 0 {
        lemma_channel_sum_bound(colors.drop_last(), c);
    }
}

#[derive(Clone, Copy)]
struct PixelSum {
    red: u64,
    green: u64,
    blue: u64,
    alpha: u64,
    count: u64,
}

/// The colors of the points of each pixel, to be averaged.
pub struct ColorSums {
    sums: HashMap<u64, PixelSum>,
    processed: u64,
    colors: Ghost<Map<u64, Seq<Rgba>>>,
}

impl ColorSums {
    /// The colors seen so far in pixel `(x, y)`, in order.
    pub closed spec fn colors_of(&self, x: u32, y: u32) -> Seq<Rgba> {
        if self.colors@.contains_key(pixel_key(x, y)) {
            self.colors@[pixel_key(x, y)]
        } else {
            Seq::empty()
        }
    }

    /// The number of points processed so far.
    pub closed spec fn processed_spec(&self) -> nat {
        self.processed as nat
    }

    pub closed spec fn wf(&self) -> bool {
        &&& forall|k: u64| #[trigger] self.sums@.contains_key(k) <==> self.colors@.contains_key(k)
        &&& forall|k: u64| #[trigger]
            self.colors@.contains_key(k) ==> {
                let s = self.colors@[k];
                let t = self.sums@[k];
                &&& s.len() <= self.processed
                &&& t.count == s.len()
                &&& t.red == channel_sum(s, 0)
                &&& t.green == channel_sum(s, 1)
                &&& t.blue == channel_sum(s, 2)
                &&& t.alpha == channel_sum(s, 3)
            }
    }

    pub fn new() -> (r: ColorSums)
        ensures
            r.wf(),
            r.processed_spec() == 0,
            forall|x: u32, y: u32| #[trigger] r.colors_of(x, y) == Seq::<Rgba>::empty(),
    {
        ColorSums { sums: HashMap::new(), processed: 0, colors: Ghost(Map::empty()) }
    }

    /// Records the color of a point that fell into pixel `(x, y)`.
    pub fn process_discretized_point(&mut self, color: Rgba, x: u32, y: u32)
        requires
            old(self).wf(),
            old(self).processed_spec() < 0x0100_0000_0000_0000,
        ensures
            final(self).wf(),
            final(self).processed_spec() == old(self).processed_spec() + 1,
            final(self).colors_of(x, y) == old(self).colors_of(x, y).push(color),
            forall|u: u32, v: u32|
                (u, v) != (x, y) ==> #[trigger] final(self).colors_of(u, v) == old(self).colors_of(
                    u,
                    v,
                ),
    {
        proof {
            lemma_pixel_key_injective(x, y, x, y);
        }
        let pk: u64 = (x as u64) * 0x1_0000_0000 + y as u64;
        assert(pk == pixel_key(x, y));
        let ghost before = self.colors_of(x, y);
        let t = match self.sums.get(&pk) {
            Some(t) => *t,
            None => PixelSum { red: 0, green: 0, blue: 0, alpha: 0, count: 0 },
        };
        proof {
            if !self.colors@.contains_key(pk) {
                assert(before == Seq::<Rgba>::empty());
            }
            lemma_channel_sum_bound(before, 0);
            lemma_channel_sum_bound(before, 1);
            lemma_channel_sum_bound(before, 2);
            lemma_channel_sum_bound(before, 3);
            let after = before.push(color);
            assert(after.drop_last() =~= before);
        }
        let next = PixelSum {
            red: t.red + color.red as u64,
            green: t.green + color.green as u64,
            blue: t.blue + color.blue as u64,
            alpha: t.alpha + color.alpha as u64,
            count: t.count + 1,
        };
        self.sums.insert(pk, next);
        self.processed = self.processed + 1;
        self.colors = Ghost(self.colors@.insert(pk, before.push(color)));
        proof {
            assert forall|u: u32, v: u32|
                (u, v) != (x, y) implies #[trigger] self.colors_of(u, v) == old(self).colors_of(
                u,
                v,
            ) by {
                lemma_pixel_key_injective(u, v, x, y);
            }
        }
    }

    /// The mean color of the points of pixel `(x, y)`, each channel rounded down; `None` for a
    /// pixel without points.
    pub fn mean(&self, x: u32, y: u32) -> (r: Option<Rgba>)
        requires
            self.wf(),
        ensures
            self.colors_of(x, y).len() == 0 ==> r is None,
            self.colors_of(x, y).len() > 0 ==> r == Some(mean_color(self.colors_of(x, y))),
    {
        proof {
            lemma_pixel_key_injective(x, y, x, y);
        }
        let pk: u64 = (x as u64) * 0x1_0000_0000 + y as u64;
        match self.sums.get(&pk) {
            Some(t) => {
                let t = *t;
                if t.count == 0 {
                    return None;
                }
                proof {
                    let s = self.colors_of(x, y);
                    lemma_channel_sum_bound(s, 0);
                    lemma_channel_sum_bound(s, 1);
                    lemma_channel_sum_bound(s, 2);
                    lemma_channel_sum_bound(s, 3);
                    lemma_mean_bound(channel_sum(s, 0), s.len() as int);
                    lemma_mean_bound(channel_sum(s, 1), s.len() as int);
                    lemma_mean_bound(channel_sum(s, 2), s.len() as int);
                    lemma_mean_bound(channel_sum(s, 3), s.len() as int);
                }
                Some(
                    Rgba {
                        red: (t.red / t.count) as u8,
                        green: (t.green / t.count) as u8,
                        blue: (t.blue / t.count) as u8,
                        alpha: (t.alpha / t.count) as u8,
                    },
                )
            },
            None => None,
        }
    }
}

/// The colors, in order, of the points inside `b` that land in pixel `(x, y)`.
pub open spec fn colors_from(
    points: Seq<[i64; 3]>,
    colors: Seq<Rgba>,
    b: Aabb,
    width: u32,
    height: u32,
    x: u32,
    y: u32,
) -> Seq<Rgba>
    decreases points.len(),
{
    if points.len() == 0 {
        Seq::empty()
    } else {
        let n = points.len() - 1;
        let rest = colors_from(points.drop_last(), colors, b, width, height, x, y);
        let d = discretize_spec(points[n], b, width, height);
        if b.contains_spec(points[n]) && d.0 == x && d.1 == y {
            rest.push(colors[n])
        } else {
            rest
        }
    }
}

/// Collects the colors of the points inside `b`, per pixel of an image of `width` by `height`
/// pixels; `colors[i]` is the color of `points[i]`. `None` when no point lies inside `b`.
pub fn colors_from_points(
    points: &Vec<[i64; 3]>,
    colors: &Vec<Rgba>,
    b: &Aabb,
    width: u32,
    height: u32,
) -> (r: Option<ColorSums>)
    requires
        box_wf(*b),
        colors@.len() == points@.len(),
        points@.len() <= 0x0100_0000_0000_0000,
    ensures
        r is None <==> forall|j: int| 0 <= j < points@.len() ==> !b.contains_spec(#[trigger] points@[j]),
        r is Some ==> r->Some_0.wf() && forall|x: u32, y: u32| #[trigger] r->Some_0.colors_of(x, y)
            == colors_from(points@, colors@, *b, width, height, x, y),
{
    let mut acc = ColorSums::new();
    let mut seen_any_points = false;
    let mut i: usize = 0;
    while i < points.len()
        invariant
            i <= points@.len(),
            colors@.len() == points@.len(),
            points@.len() <= 0x0100_0000_0000_0000,
            box_wf(*b),
            acc.wf(),
            acc.processed_spec() <= i,
            seen_any_points <==> exists|j: int| 0 <= j < i && b.contains_spec(#[trigger] points@[j]),
            forall|x: u32, y: u32| #[trigger] acc.colors_of(x, y)
                == colors_from(points@.take(i as int), colors@, *b, width, height, x, y),
        decreases points@.len() - i,
    {
        let p = points[i];
        let ghost before = acc;
        let ghost prev = points@.take(i as int);
        let ghost next = points@.take(i + 1);
        proof {
            assert(next.drop_last() =~= prev);
            assert(next[i as int] == p);
        }
        if b.contains(&p) {
            seen_any_points = true;
            let (x, y, _z) = discretize(p, b, width, height);
            acc.process_discretized_point(colors[i], x, y);
            proof {
                assert forall|u: u32, v: u32| #[trigger] acc.colors_of(u, v)
                    == colors_from(next, colors@, *b, width, height, u, v) by {
                    if (u, v) != (x, y) {
                        assert(before.colors_of(u, v) == acc.colors_of(u, v));
                    }
                }
            }
        }
        proof {
            if b.contains_spec(p) {
                assert(points@[i as int] == p);
            }
        }
        i = i + 1;
    }
    proof {
        assert(points@.take(points@.len() as int) =~= points@);
    }
    if seen_any_points {
        Some(acc)
    } else {
        None
    }
}

proof fn lemma_mean_bound(sum: int, n: int)
    requires
        n > 0,
        0 <= sum <= 255 * n,
    ensures
        0 <= sum / n <= 255,
{
    vstd::arithmetic::div_mod::lemma_div_is_ordered(sum, 255 * n, n);
    vstd::arithmetic::div_mod::lemma_div_multiples_vanish(255, n);
    assert(255 * n == n * 255) by (nonlinear_arith);
    vstd::arithmetic::div_mod::lemma_div_pos_is_pos(sum, n);
}

proof fn lemma_u32_set_len(s: Set<u32>)
    requires
        s.finite(),
    ensures
        s.len() <= 0x1_0000_0000,
{
    let f = |z: u32| z as int;
    let t = s.map(f);
    assert(vstd::relations::injective_on(f, s));
    vstd::set_lib::lemma_map_size(s, t, f);
    let range = vstd::set_lib::set_int_range(0, 0x1_0000_0000);
    vstd::set_lib::lemma_int_range(0, 0x1_0000_0000);
    assert forall|i: int| t.contains(i) implies range.contains(i) by {
        let z = choose|z: u32| s.contains(z) && f(z) == i;
    }
    vstd::set_lib::lemma_len_subset(t, range);
}

} // verus!
