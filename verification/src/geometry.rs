use vstd::prelude::*;

verus! {

/// The binary64 bit pattern of an angle of two full half-turns, 2π radians.
pub const TWO_PI_BITS: u64 = 0x401921FB54442D18;

/// The binary64 bit pattern of π radians.
pub const PI_BITS: u64 = 0x400921FB54442D18;

/// The sign bit of a binary64 bit pattern.
pub const SIGN_BIT: u64 = 0x8000000000000000;

/// A coordinate in radians, each component held as the bit pattern of a
/// binary64 number: `x` is the longitude, `y` the latitude.
#[derive(Clone, Copy, Debug, PartialEq, Eq, Structural)]
pub struct Coord {
    pub x: u64,
    pub y: u64,
}

/// A bounded area: one exterior ring and any number of holes.
#[derive(Clone, Debug, PartialEq, Eq)]
pub struct Polygon {
    pub exterior: Vec<Coord>,
    pub interiors: Vec<Vec<Coord>>,
}

/// Any of the supported shapes.
#[derive(Debug, PartialEq, Eq)]
#[non_exhaustive]
pub enum Geometry {
    /// A single point.
    Point(Coord),
    /// A line segment between two points.
    Line(Coord, Coord),
    /// A series of contiguous line segments.
    LineString(Vec<Coord>),
    /// A bounded area.
    Polygon(Polygon),
    /// A collection of points.
    MultiPoint(Vec<Coord>),
    /// A collection of line strings.
    MultiLineString(Vec<Vec<Coord>>),
    /// A collection of polygons.
    MultiPolygon(Vec<Polygon>),
    /// A collection of shapes of any kind.
    GeometryCollection(Vec<Geometry>),
    /// An axis-aligned rectangle given by its minimum and maximum corners.
    Rect(Coord, Coord),
    /// A triangle given by its three vertices.
    Triangle(Coord, Coord, Coord),
}

/// A shape with a coordinate that is not finite or out of range.
#[derive(Clone, Copy, Debug, PartialEq, Eq, Structural)]
pub struct InvalidGeometry {
}

/// The bit pattern without its sign: that of the number's absolute value.
/// Among these patterns the order of the integers is the order of the
/// numbers, with the infinity and every NaN above each finite number.
pub open spec fn magnitude(bits: u64) -> int {
    bits as int % 0x8000000000000000
}

/// Whether a coordinate is finite, with a longitude within [-2π, 2π] and a
/// latitude within [-π, π].
pub open spec fn coord_valid(coord: Coord) -> bool {
    magnitude(coord.x) <= 0x401921FB54442D18 && magnitude(coord.y) <= 0x400921FB54442D18
}

/// Whether every coordinate of the sequence is valid.
pub open spec fn coords_valid(coords: Seq<Coord>) -> bool {
    forall|i: int| 0 <= i < coords.len() ==> coord_valid(#[trigger] coords[i])
}

/// Whether every coordinate of every ring is valid.
pub open spec fn rings_valid(rings: Seq<Vec<Coord>>) -> bool {
    forall|i: int| 0 <= i < rings.len() ==> coords_valid((#[trigger] rings[i])@)
}

/// Whether every coordinate of the polygon's rings is valid.
pub open spec fn polygon_valid(polygon: Polygon) -> bool {
    coords_valid(polygon.exterior@) && rings_valid(polygon.interiors@)
}

/// Whether every coordinate of every polygon is valid.
pub open spec fn polygons_valid(polygons: Seq<Polygon>) -> bool {
    forall|i: int| 0 <= i < polygons.len() ==> polygon_valid(#[trigger] polygons[i])
}

/// The bit pattern without its sign.
fn magnitude_of(bits: u64) -> (m: u64)
    ensures
        m as int == magnitude(bits),
{
    if bits >= SIGN_BIT {
        bits - SIGN_BIT
    } else {
        bits
    }
}

/// Whether the coordinate is finite and in range.
pub fn coord_is_valid(coord: Coord) -> (r: bool)
    ensures
        r == coord_valid(coord),
{
    magnitude_of(coord.x) <= TWO_PI_BITS && magnitude_of(coord.y) <= PI_BITS
}

/// Whether every coordinate of the vector is valid.
fn check_coords(coords: &Vec<Coord>) -> (r: bool)
    ensures
        r == coords_valid(coords@),
{
    let mut i: usize = 0;
    while i < coords.len()
        invariant
            i <= coords@.len(),
            forall|j: int| 0 <= j < i ==> coord_valid(#[trigger] coords@[j]),
        decreases coords@.len() - i,
    {
        if !coord_is_valid(coords[i]) {
            return false;
        }
        i = i + 1;
    }
    true
}

/// Whether every coordinate of every ring is valid.
fn check_rings(rings: &Vec<Vec<Coord>>) -> (r: bool)
    ensures
        r == rings_valid(rings@),
{
    let mut i: usize = 0;
    while i < rings.len()
        invariant
            i <= rings@.len(),
            forall|j: int| 0 <= j < i ==> coords_valid((#[trigger] rings@[j])@),
        decreases rings@.len() - i,
    {
        if !check_coords(&rings[i]) {
            return false;
        }
        i = i + 1;
    }
    true
}

/// Whether every coordinate of the polygon's rings is valid.
fn check_polygon(polygon: &Polygon) -> (r: bool)
    ensures
        r == polygon_valid(*polygon),
{
    check_coords(&polygon.exterior) && check_rings(&polygon.interiors)
}

/// Whether every coordinate of every polygon is valid.
fn check_polygons(polygons: &Vec<Polygon>) -> (r: bool)
    ensures
        r == polygons_valid(polygons@),
{
    let mut i: usize = 0;
    while i < polygons.len()
        invariant
            i <= polygons@.len(),
            forall|j: int| 0 <= j < i ==> polygon_valid(#[trigger] polygons@[j]),
        decreases polygons@.len() - i,
    {
        if !check_polygon(&polygons[i]) {
            return false;
        }
        i = i + 1;
    }
    true
}

impl Clone for Geometry {
    #[verifier::loop_isolation(false)]
    fn clone(&self) -> (out: Self)
        decreases self,
    {
        match self {
            Geometry::Point(p) => Geometry::Point(*p),
            Geometry::Line(a, b) => Geometry::Line(*a, *b),
            Geometry::LineString(line) => Geometry::LineString(line.clone()),
            Geometry::Polygon(polygon) => Geometry::Polygon(polygon.clone()),
            Geometry::MultiPoint(points) => Geometry::MultiPoint(points.clone()),
            Geometry::MultiLineString(lines) => Geometry::MultiLineString(lines.clone()),
            Geometry::MultiPolygon(polygons) => Geometry::MultiPolygon(polygons.clone()),
            Geometry::GeometryCollection(members) => {
                let mut copies: Vec<Geometry> = Vec::new();
                let mut i: usize = 0;
                while i < members.len()
                    invariant
                        i <= members@.len(),
                        *self == Geometry::GeometryCollection(*members),
                    decreases members@.len() - i,
                {
                    proof {
                        vstd::std_specs::vec::axiom_vec_index_decreases(*members, i as int);
                    }
                    copies.push(members[i].clone());
                    i = i + 1;
                }
                Geometry::GeometryCollection(copies)
            },
            Geometry::Rect(min, max) => Geometry::Rect(*min, *max),
            Geometry::Triangle(a, b, c) => Geometry::Triangle(*a, *b, *c),
        }
    }
}

impl Geometry {
    /// Whether every coordinate of the shape is finite and in range.
    pub open spec fn valid(&self) -> bool
        decreases self,
    {
        match self {
            Geometry::Point(p) => coord_valid(*p),
            Geometry::Line(a, b) => coord_valid(*a) && coord_valid(*b),
            Geometry::LineString(line) => coords_valid(line@),
            Geometry::Polygon(polygon) => polygon_valid(*polygon),
            Geometry::MultiPoint(points) => coords_valid(points@),
            Geometry::MultiLineString(lines) => rings_valid(lines@),
            Geometry::MultiPolygon(polygons) => polygons_valid(polygons@),
            Geometry::GeometryCollection(members) => forall|i: int|
                0 <= i < members@.len() ==> (#[trigger] members@[i]).valid(),
            Geometry::Rect(min, max) => coord_valid(*min) && coord_valid(*max),
            Geometry::Triangle(a, b, c) => coord_valid(*a) && coord_valid(*b) && coord_valid(*c),
        }
    }

    /// Whether every coordinate of the shape is finite and in range.
    #[verifier::loop_isolation(false)]
    pub fn is_valid(&self) -> (r: bool)
        ensures
            r == self.valid(),
        decreases self,
    {
        match self {
            Geometry::Point(p) => coord_is_valid(*p),
            Geometry::Line(a, b) => coord_is_valid(*a) && coord_is_valid(*b),
            Geometry::LineString(line) => check_coords(line),
            Geometry::Polygon(polygon) => check_polygon(polygon),
            Geometry::MultiPoint(points) => check_coords(points),
            Geometry::MultiLineString(lines) => check_rings(lines),
            Geometry::MultiPolygon(polygons) => check_polygons(polygons),
            Geometry::GeometryCollection(members) => {
                let mut i: usize = 0;
                while i < members.len()
                    invariant
                        i <= members@.len(),
                        *self == Geometry::GeometryCollection(*members),
                        forall|j: int| 0 <= j < i ==> (#[trigger] members@[j]).valid(),
                    decreases members@.len() - i,
                {
                    proof {
                        vstd::std_specs::vec::axiom_vec_index_decreases(*members, i as int);
                    }
                    if !members[i].is_valid() {
                        proof {
                            assert(!members@[i as int].valid());
                        }
                        return false;
                    }
                    i = i + 1;
                }
                true
            },
            Geometry::Rect(min, max) => coord_is_valid(*min) && coord_is_valid(*max),
            Geometry::Triangle(a, b, c) => coord_is_valid(*a) && coord_is_valid(*b)
                && coord_is_valid(*c),
        }
    }

    /// Takes a shape whose coordinates are in radians: the shape itself where
    /// every coordinate is finite and in range, the error otherwise.
    pub fn from_radians(geometry: Geometry) -> (out: Result<Geometry, InvalidGeometry>)
        ensures
            out.is_ok() <==> geometry.valid(),
            out.is_ok() ==> out.unwrap() == geometry,
    {
        if geometry.is_valid() {
            Ok(geometry)
        } else {
            Err(InvalidGeometry {  })
        }
    }
}

} // verus!
