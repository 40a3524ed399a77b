//! Climate space: parameter ranges, hypercubes and sampled points.
//!
//! Every coordinate is a fixed-point number held in an `i32`. A hypercube has
//! seven parameters, in the order temperature, humidity, continentalness,
//! erosion, depth, weirdness, offset. A sampled point has the first six; the
//! offset is declared by a registry entry and never sampled.

use vstd::prelude::*;

verus! {

/// A closed interval of one climate parameter.
#[derive(Clone, Copy, Debug, PartialEq, Eq, Structural)]
pub struct ParameterRange {
    pub min: i32,
    pub max: i32,
}

impl ParameterRange {
    /// A range is well formed when it holds at least one value.
    pub open spec fn wf(self) -> bool {
        self.min <= self.max
    }

    /// The smallest range that covers both `self` and `other`.
    pub open spec fn spec_combine(self, other: Self) -> Self {
        ParameterRange {
            min: if self.min <= other.min { self.min } else { other.min },
            max: if self.max >= other.max { self.max } else { other.max },
        }
    }

    /// Twice the midpoint of the range. Doubling keeps the order of the
    /// midpoints and keeps them whole numbers.
    pub open spec fn midpoint2(self) -> int {
        self.min + self.max
    }

    /// The extent of the range.
    pub open spec fn width(self) -> int {
        self.max - self.min
    }

    /// Whether `x` lies in the range.
    pub open spec fn contains(self, x: int) -> bool {
        self.min <= x <= self.max
    }

    /// How far `x` lies outside the range; zero inside it.
    pub open spec fn gap(self, x: int) -> int {
        if self.min - x >= x - self.max {
            if self.min - x >= 0 { self.min - x } else { 0 }
        } else {
            if x - self.max >= 0 { x - self.max } else { 0 }
        }
    }

    /// The range from `min` to `max`, if that is a range at all.
    pub fn new(min: i32, max: i32) -> (range: Option<Self>)
        ensures
            min <= max ==> range == Some(ParameterRange { min, max }),
            min > max ==> range.is_none(),
    {
        if min <= max {
            Some(ParameterRange { min, max })
        } else {
            None
        }
    }

    /// The smallest range that covers both `self` and `other`.
    pub fn combine(&self, other: &Self) -> (hull: Self)
        ensures
            hull == self.spec_combine(*other),
    {
        Self {
            min: if self.min <= other.min { self.min } else { other.min },
            max: if self.max >= other.max { self.max } else { other.max },
        }
    }

    /// Whether `x` lies in the range.
    pub fn holds(&self, x: i32) -> (inside: bool)
        ensures
            inside == self.contains(x as int),
    {
        self.min <= x && x <= self.max
    }

    /// The square of the distance from `x` to the range.
    pub fn squared_gap(&self, x: i32) -> (sq: u128)
        ensures
            sq == self.gap(x as int) * self.gap(x as int),
            sq <= 0xffff_fffe_0000_0001,
    {
        let below: i64 = self.min as i64 - x as i64;
        let above: i64 = x as i64 - self.max as i64;
        let outside: i64 = if below >= above { below } else { above };
        let gap: u64 = if outside >= 0 { outside as u64 } else { 0 };
        assert(gap * gap <= 0xffff_fffe_0000_0001) by (nonlinear_arith)
            requires
                0 <= gap <= 0xffff_ffff,
        ;
        (gap * gap) as u128
    }
}

/// The region of climate space that one registry entry matches.
#[derive(Clone, Copy, Debug, PartialEq, Eq, Structural)]
pub struct NoiseHypercube {
    pub temperature: ParameterRange,
    pub erosion: ParameterRange,
    pub depth: ParameterRange,
    pub continentalness: ParameterRange,
    pub weirdness: ParameterRange,
    pub humidity: ParameterRange,
    pub offset: i32,
}

impl NoiseHypercube {
    /// The seven parameters in their fixed order; the offset is the range
    /// that holds the offset alone.
    pub open spec fn parameters(self) -> Seq<ParameterRange> {
        seq![
            self.temperature,
            self.humidity,
            self.continentalness,
            self.erosion,
            self.depth,
            self.weirdness,
            ParameterRange { min: self.offset, max: self.offset },
        ]
    }

    /// The seven parameters in their fixed order.
    pub fn to_parameters(&self) -> (parameters: [ParameterRange; 7])
        ensures
            parameters@ == self.parameters(),
    {
        let parameters = [
            self.temperature,
            self.humidity,
            self.continentalness,
            self.erosion,
            self.depth,
            self.weirdness,
            ParameterRange { min: self.offset, max: self.offset },
        ];
        parameters
    }
}

/// A point of climate space, sampled at one position of the world.
#[derive(Clone, Copy, Debug, PartialEq, Eq, Structural)]
pub struct NoiseValuePoint {
    pub temperature: i32,
    pub erosion: i32,
    pub depth: i32,
    pub continents: i32,
    pub weirdness: i32,
    pub humidity: i32,
}

impl NoiseValuePoint {
    /// The six coordinates, in the order of a hypercube's parameters.
    pub open spec fn coordinates(self) -> Seq<i32> {
        seq![
            self.temperature,
            self.humidity,
            self.continents,
            self.erosion,
            self.depth,
            self.weirdness,
        ]
    }

    /// The six coordinates, in the order of a hypercube's parameters.
    pub fn to_coordinates(&self) -> (coordinates: [i32; 6])
        ensures
            coordinates@ == self.coordinates(),
    {
        let coordinates = [
            self.temperature,
            self.humidity,
            self.continents,
            self.erosion,
            self.depth,
            self.weirdness,
        ];
        coordinates
    }
}

/// The parameter-wise union of two hypercubes.
pub open spec fn union(a: Seq<ParameterRange>, b: Seq<ParameterRange>) -> Seq<ParameterRange> {
    Seq::new(7, |d: int| a[d].spec_combine(b[d]))
}

/// The square of the distance from `at` to `bounds` along parameter `d`.
pub open spec fn squared_gap(bounds: Seq<ParameterRange>, at: Seq<i32>, d: int) -> int {
    bounds[d].gap(at[d] as int) * bounds[d].gap(at[d] as int)
}

/// The squared Euclidean distance from a point to a hypercube, over the six
/// sampled parameters. The offset takes no part: a point has none, and the
/// midpoint of the hypercube's own offset stands in for it, at distance zero.
pub open spec fn distance(bounds: Seq<ParameterRange>, at: Seq<i32>) -> int {
    squared_gap(bounds, at, 0) + squared_gap(bounds, at, 1) + squared_gap(bounds, at, 2)
        + squared_gap(bounds, at, 3) + squared_gap(bounds, at, 4) + squared_gap(bounds, at, 5)
}

/// Whether a point lies inside a hypercube, over the six sampled parameters.
/// The offset takes no part here either.
pub open spec fn inside(bounds: Seq<ParameterRange>, at: Seq<i32>) -> bool {
    forall|d: int| 0 <= d < 6 ==> (#[trigger] bounds[d]).contains(at[d] as int)
}

/// The parameter-wise union of two hypercubes.
pub fn combine_bounds(a: &[ParameterRange; 7], b: &[ParameterRange; 7]) -> (hull: [
    ParameterRange;
    7
])
    ensures
        hull@ == union(a@, b@),
{
    let hull = [
        a[0].combine(&b[0]),
        a[1].combine(&b[1]),
        a[2].combine(&b[2]),
        a[3].combine(&b[3]),
        a[4].combine(&b[4]),
        a[5].combine(&b[5]),
        a[6].combine(&b[6]),
    ];
    hull
}

/// The squared distance from `point` to `bounds`.
pub fn distance_to(bounds: &[ParameterRange; 7], point: &NoiseValuePoint) -> (sum: u128)
    ensures
        sum == distance(bounds@, point.coordinates()),
{
    let at = point.to_coordinates();
    bounds[0].squared_gap(at[0]) + bounds[1].squared_gap(at[1]) + bounds[2].squared_gap(at[2])
        + bounds[3].squared_gap(at[3]) + bounds[4].squared_gap(at[4]) + bounds[5].squared_gap(
        at[5],
    )
}

/// Whether `point` lies inside `bounds`.
pub fn contains_point(bounds: &[ParameterRange; 7], point: &NoiseValuePoint) -> (within: bool)
    ensures
        within == inside(bounds@, point.coordinates()),
{
    let at = point.to_coordinates();
    let within = bounds[0].holds(at[0]) && bounds[1].holds(at[1]) && bounds[2].holds(at[2])
        && bounds[3].holds(at[3]) && bounds[4].holds(at[4]) && bounds[5].holds(at[5]);
    within
}

/// The union of two ranges covers both, and every range that covers both
/// covers the union.
pub proof fn lemma_combine_is_least_cover(a: ParameterRange, b: ParameterRange, c: ParameterRange)
    ensures
        a.spec_combine(b).min <= a.min && a.max <= a.spec_combine(b).max,
        a.spec_combine(b).min <= b.min && b.max <= a.spec_combine(b).max,
        a.wf() || b.wf() ==> a.spec_combine(b).wf(),
        c.min <= a.min && a.max <= c.max && c.min <= b.min && b.max <= c.max ==> c.min
            <= a.spec_combine(b).min && a.spec_combine(b).max <= c.max,
{
}

/// A point inside a hypercube is at distance zero from it, and only such a
/// point is.
pub proof fn lemma_inside_iff_distance_zero(bounds: Seq<ParameterRange>, at: Seq<i32>)
    ensures
        inside(bounds, at) <==> distance(bounds, at) == 0,
        distance(bounds, at) >= 0,
{
    assert forall|d: int| 0 <= d < 6 implies (squared_gap(bounds, at, d) >= 0 && (squared_gap(
        bounds,
        at,
        d,
    ) == 0 <==> (#[trigger] bounds[d]).contains(at[d] as int))) by {
        let g = bounds[d].gap(at[d] as int);
        assert(g * g >= 0 && (g * g == 0 <==> g == 0)) by (nonlinear_arith);
    }
}

/// A hypercube is no farther from a point than any hypercube it was united
/// from.
pub proof fn lemma_union_is_nearer(a: Seq<ParameterRange>, b: Seq<ParameterRange>, at: Seq<i32>)
    ensures
        distance(union(a, b), at) <= distance(a, at),
        distance(union(a, b), at) <= distance(b, at),
{
    let u = union(a, b);
    assert forall|d: int| 0 <= d < 6 implies (#[trigger] squared_gap(u, at, d) <= squared_gap(
        a,
        at,
        d,
    ) && squared_gap(u, at, d) <= squared_gap(b, at, d)) by {
        let gu = u[d].gap(at[d] as int);
        let ga = a[d].gap(at[d] as int);
        let gb = b[d].gap(at[d] as int);
        assert(gu * gu <= ga * ga && gu * gu <= gb * gb) by (nonlinear_arith)
            requires
                0 <= gu <= ga,
                gu <= gb,
        ;
    }
}

} // verus!
