use vstd::prelude::*;
use crate::arith::{frac_lt, lemma_frac_lt_trans, lemma_mul_bound, lemma_square_nonneg};
use crate::geometry::{
    hits, line_intersection, ray_line, sq_dist, Ray, Vector, MAX_DENOMINATOR, MAX_NUMERATOR,
};

verus! {

/// A squared distance `num / den`, with `den` positive when it is one of the
/// library's results.
#[derive(Clone, Copy, Debug, PartialEq, Eq, Structural)]
pub struct SquaredDistance {
    pub num: u128,
    pub den: u128,
}

impl View for SquaredDistance {
    type V = (int, int);

    open spec fn view(&self) -> (int, int) {
        (self.num as int, self.den as int)
    }
}

/// `a` is strictly less than `b`, both read as fractions with positive
/// denominators.
pub open spec fn dist_lt(a: (int, int), b: (int, int)) -> bool {
    a.0 * b.1 < b.0 * a.1
}

/// Squared distance from the segment's first endpoint to the point where its
/// line crosses the ray's line.
pub open spec fn hit_dist(seg: Vector, ray: Ray) -> (int, int) {
    let p = line_intersection(seg, ray_line(ray)).unwrap();
    (sq_dist(p.0, p.1, seg.x * p.2, seg.y * p.2), p.2 * p.2)
}

/// `r` is the outcome of choosing, among the first `n` segments, the one hit
/// by the ray at the smallest distance from its own first endpoint, the
/// earliest one on ties; none when no segment is hit.
pub open spec fn is_nearest(ray: Ray, segs: Seq<Vector>, n: int, r: Option<int>) -> bool {
    match r {
        None => forall|j: int| 0 <= j < n ==> !hits(#[trigger] segs[j], ray),
        Some(i) => {
            &&& 0 <= i < n
            &&& hits(segs[i], ray)
            &&& forall|j: int|
                0 <= j < i && hits(#[trigger] segs[j], ray) ==> dist_lt(
                    hit_dist(segs[i], ray),
                    hit_dist(segs[j], ray),
                )
            &&& forall|j: int|
                i < j < n && hits(#[trigger] segs[j], ray) ==> !dist_lt(
                    hit_dist(segs[j], ray),
                    hit_dist(segs[i], ray),
                )
        },
    }
}

/// A hit segment's squared distance has a positive denominator.
pub proof fn lemma_hit_dist_den(seg: Vector, ray: Ray)
    requires
        hits(seg, ray),
    ensures
        hit_dist(seg, ray).1 > 0,
{
    let p = line_intersection(seg, ray_line(ray)).unwrap();
    assert(p.2 * p.2 > 0) by (nonlinear_arith)
        requires
            p.2 > 0,
    ;
}

/// A query result is determined: at most one outcome meets the description.
pub proof fn lemma_nearest_unique(ray: Ray, segs: Seq<Vector>, r1: Option<int>, r2: Option<int>)
    requires
        is_nearest(ray, segs, segs.len() as int, r1),
        is_nearest(ray, segs, segs.len() as int, r2),
    ensures
        r1 == r2,
{
    if let Some(i1) = r1 {
        if let Some(i2) = r2 {
            if i1 < i2 {
                assert(hits(segs[i1], ray));
            } else if i2 < i1 {
                assert(hits(segs[i2], ray));
            }
        } else {
            assert(hits(segs[i1], ray));
        }
    } else if let Some(i2) = r2 {
        assert(hits(segs[i2], ray));
    }
}

/// Over no segments at all, the query finds nothing.
pub proof fn lemma_nearest_empty(ray: Ray, segs: Seq<Vector>, r: Option<int>)
    requires
        segs.len() == 0,
        is_nearest(ray, segs, 0, r),
    ensures
        r is None,
{
}

/// Where the ray hits exactly one segment, the query picks that segment.
pub proof fn lemma_nearest_single_hit(ray: Ray, segs: Seq<Vector>, i: int, r: Option<int>)
    requires
        0 <= i < segs.len(),
        hits(segs[i], ray),
        forall|j: int| 0 <= j < segs.len() && j != i ==> !hits(#[trigger] segs[j], ray),
        is_nearest(ray, segs, segs.len() as int, r),
    ensures
        r == Some(i),
{
    if r is None {
        assert(hits(segs[i], ray));
    }
}

/// Of two hit segments at equal distance, the later one is never the
/// result; where they are the only hits, the earlier one is.
pub proof fn lemma_nearest_tie_earlier(
    ray: Ray,
    segs: Seq<Vector>,
    i: int,
    j: int,
    r: Option<int>,
)
    requires
        0 <= i < j < segs.len(),
        hits(segs[i], ray),
        hits(segs[j], ray),
        !dist_lt(hit_dist(segs[i], ray), hit_dist(segs[j], ray)),
        !dist_lt(hit_dist(segs[j], ray), hit_dist(segs[i], ray)),
        is_nearest(ray, segs, segs.len() as int, r),
    ensures
        r != Some(j),
        (forall|k: int| 0 <= k < segs.len() && k != i && k != j ==> !hits(#[trigger] segs[k], ray))
            ==> r == Some(i),
{
    if r == Some(j) {
        assert(hits(segs[i], ray));
    }
    if forall|k: int| 0 <= k < segs.len() && k != i && k != j ==> !hits(#[trigger] segs[k], ray) {
        if r is None {
            assert(hits(segs[i], ray));
        }
    }
}

impl SquaredDistance {
    /// Whether this distance is strictly less than `other`.
    pub fn less_than(&self, other: &SquaredDistance) -> (r: bool)
        requires
            self.den > 0,
            other.den > 0,
        ensures
            r == dist_lt(self@, other@),
    {
        frac_lt(self.num, self.den, other.num, other.den)
    }
}

impl Vector {
    /// Squared distance from the first endpoint to the point where the ray
    /// hits this segment; none when the ray does not hit it.
    pub fn hit_distance(&self, ray: &Ray) -> (r: Option<SquaredDistance>)
        requires
            self.wf(),
            ray.wf(),
        ensures
            r is Some == hits(*self, *ray),
            r matches Some(d) ==> d@ == hit_dist(*self, *ray) && d.den > 0,
    {
        let p = match self.get_intersection(ray) {
            Some(p) => p,
            None => return None,
        };
        if !(self.has_point(&p) && ray.has_point(&p)) {
            return None;
        }
        proof {
            lemma_mul_bound(self.x as int, p.den as int, 0x8_0000, MAX_DENOMINATOR as int);
            lemma_mul_bound(self.y as int, p.den as int, 0x8_0000, MAX_DENOMINATOR as int);
        }
        let u = p.x - self.x as i128 * p.den;
        let v = p.y - self.y as i128 * p.den;
        proof {
            lemma_mul_bound(u as int, u as int, 0x2000_0000_0000_0000, 0x2000_0000_0000_0000);
            lemma_mul_bound(v as int, v as int, 0x2000_0000_0000_0000, 0x2000_0000_0000_0000);
            lemma_mul_bound(p.den as int, p.den as int, MAX_DENOMINATOR as int, MAX_DENOMINATOR as int);
            lemma_square_nonneg(u as int);
            lemma_square_nonneg(v as int);
            assert(p.den * p.den > 0) by (nonlinear_arith)
                requires
                    p.den > 0,
            ;
        }
        let num = u * u + v * v;
        let den = p.den * p.den;
        Some(SquaredDistance { num: num as u128, den: den as u128 })
    }
}

/// The result of a nearest-segment query: which segment, and the squared
/// distance from its first endpoint to where the ray hits it.
#[derive(Clone, Copy, Debug, PartialEq, Eq, Structural)]
pub struct Nearest {
    pub index: usize,
    pub distance: SquaredDistance,
}

pub open spec fn index_of(r: Option<Nearest>) -> Option<int> {
    match r {
        Some(n) => Some(n.index as int),
        None => None,
    }
}

/// Among `segments`, the one the ray hits nearest to the segment's own first
/// endpoint, the earliest in order on ties; none when the ray hits none.
pub fn nearest(ray: &Ray, segments: &Vec<Vector>) -> (r: Option<Nearest>)
    requires
        ray.wf(),
        forall|i: int| 0 <= i < segments.len() ==> (#[trigger] segments[i]).wf(),
    ensures
        is_nearest(*ray, segments@, segments.len() as int, index_of(r)),
        r matches Some(n) ==> n.distance@ == hit_dist(segments@[n.index as int], *ray),
{
    let mut best: Option<Nearest> = None;
    let mut i: usize = 0;
    while i < segments.len()
        invariant
            0 <= i <= segments.len(),
            ray.wf(),
            forall|k: int| 0 <= k < segments.len() ==> (#[trigger] segments[k]).wf(),
            is_nearest(*ray, segments@, i as int, index_of(best)),
            best matches Some(b) ==> b.distance@ == hit_dist(segments@[b.index as int], *ray)
                && b.distance.den > 0,
        decreases segments.len() - i,
    {
        let seg = &segments[i];
        match seg.hit_distance(ray) {
            None => {
                assert(is_nearest(*ray, segments@, i + 1, index_of(best)));
            },
            Some(d) => {
                let closer = match best {
                    None => true,
                    Some(b) => d.less_than(&b.distance),
                };
                if closer {
                    proof {
                        if let Some(b) = best {
                            let bi = b.index as int;
                            let db = hit_dist(segments@[bi], *ray);
                            assert forall|j: int|
                                0 <= j < i && hits(#[trigger] segments@[j], *ray) implies dist_lt(
                                d@,
                                hit_dist(segments@[j], *ray),
                            ) by {
                                let dj = hit_dist(segments@[j], *ray);
                                lemma_hit_dist_den(segments@[j], *ray);
                                if j < bi {
                                    lemma_frac_lt_trans(d@.0, d@.1, db.0, db.1, dj.0, dj.1);
                                } else if j > bi {
                                    lemma_frac_lt_trans(d@.0, d@.1, db.0, db.1, dj.0, dj.1);
                                }
                            }
                        }
                    }
                    best = Some(Nearest { index: i, distance: d });
                } else {
                    assert(is_nearest(*ray, segments@, i + 1, index_of(best)));
                }
            },
        }
        i = i + 1;
    }
    best
}

} // verus!
