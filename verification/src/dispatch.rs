use crate::geometry::{Coord, Geometry, Polygon};
use vstd::prelude::*;

verus! {

/// One piece of work on the grid that a shape asks for.
#[derive(Clone, Copy, Debug, PartialEq, Eq)]
pub enum Probe<'a> {
    /// The cell that holds a point.
    Point(Coord),
    /// The cells along the segment between two points.
    Segment(Coord, Coord),
    /// The cells whose representative point lies in a polygon.
    Polygon(&'a Polygon),
    /// The cells whose representative point lies in a rectangle, given by
    /// its minimum and maximum corners.
    Rect(Coord, Coord),
    /// The cells whose representative point lies in a triangle.
    Triangle(Coord, Coord, Coord),
}

/// One probe for each point.
pub open spec fn point_probes<'a>(points: Seq<Coord>) -> Seq<Probe<'a>> {
    Seq::new(points.len(), |i: int| Probe::Point(points[i]))
}

/// One probe for each segment of a line string: none for a line string of
/// fewer than two points.
pub open spec fn segment_probes<'a>(line: Seq<Coord>) -> Seq<Probe<'a>> {
    Seq::new(
        if line.len() >= 2 {
            (line.len() - 1) as nat
        } else {
            0
        },
        |i: int| Probe::Segment(line[i], line[i + 1]),
    )
}

/// The probes of the first `n` line strings, one line string after the
/// other.
pub open spec fn line_probes<'a>(lines: Seq<Vec<Coord>>, n: int) -> Seq<Probe<'a>>
    decreases n,
{
    if n <= 0 {
        Seq::empty()
    } else {
        line_probes(lines, n - 1) + segment_probes(lines[n - 1]@)
    }
}

/// One probe for each polygon.
pub open spec fn polygon_probes<'a>(polygons: Seq<Polygon>) -> Seq<Probe<'a>> {
    Seq::new(polygons.len(), |i: int| Probe::Polygon(&polygons[i]))
}

/// The probes of a shape that is no collection of shapes, and those of the
/// first `n` members of a collection of shapes, each member with all of its
/// own.
pub open spec fn probes_upto<'a>(geometry: Geometry, n: int) -> Seq<Probe<'a>>
    decreases geometry, n,
{
    match geometry {
        Geometry::Point(p) => seq![Probe::Point(p)],
        Geometry::Line(a, b) => seq![Probe::Segment(a, b)],
        Geometry::LineString(line) => segment_probes(line@),
        Geometry::Polygon(polygon) => seq![Probe::Polygon(&polygon)],
        Geometry::MultiPoint(points) => point_probes(points@),
        Geometry::MultiLineString(lines) => line_probes(lines@, lines@.len() as int),
        Geometry::MultiPolygon(polygons) => polygon_probes(polygons@),
        Geometry::GeometryCollection(members) => if 0 < n <= members@.len() {
            probes_upto(geometry, n - 1) + probes_upto(
                members@[n - 1],
                member_count(members@[n - 1]),
            )
        } else {
            Seq::empty()
        },
        Geometry::Rect(min, max) => seq![Probe::Rect(min, max)],
        Geometry::Triangle(a, b, c) => seq![Probe::Triangle(a, b, c)],
    }
}

/// The number of members of a collection of shapes; 0 for another shape.
pub open spec fn member_count(geometry: Geometry) -> int {
    match geometry {
        Geometry::GeometryCollection(members) => members@.len() as int,
        _ => 0,
    }
}

/// The work that a shape asks for, in the order in which its cells come
/// out: a collection asks for the work of its members in turn, and nothing
/// is left out where two members overlap.
pub open spec fn probes_of<'a>(geometry: Geometry) -> Seq<Probe<'a>> {
    probes_upto(geometry, member_count(geometry))
}

fn push_segments<'a>(line: &Vec<Coord>, out: &mut Vec<Probe<'a>>)
    ensures
        final(out)@ == old(out)@ + segment_probes(line@),
{
    let mut i: usize = 1;
    assert(out@ =~= old(out)@ + segment_probes(line@).take(0));
    while i < line.len()
        invariant
            1 <= i,
            i <= line@.len() || i == 1,
            out@ == old(out)@ + segment_probes(line@).take(i - 1),
        decreases line@.len() - i,
    {
        out.push(Probe::Segment(line[i - 1], line[i]));
        assert(out@ =~= old(out)@ + segment_probes(line@).take(i as int));
        i = i + 1;
    }
    proof {
        let all = segment_probes::<'a>(line@);
        assert(all.take(i - 1) =~= all);
    }
}

impl Geometry {
    /// Appends the work that the shape asks for.
    #[verifier::loop_isolation(false)]
    fn collect<'a>(&'a self, out: &mut Vec<Probe<'a>>)
        ensures
            final(out)@ == old(out)@ + probes_of(*self),
        decreases self,
    {
        match self {
            Geometry::Point(p) => {
                out.push(Probe::Point(*p));
                assert(out@ =~= old(out)@ + probes_of(*self));
            },
            Geometry::Line(a, b) => {
                out.push(Probe::Segment(*a, *b));
                assert(out@ =~= old(out)@ + probes_of(*self));
            },
            Geometry::LineString(line) => {
                push_segments(line, out);
            },
            Geometry::Polygon(polygon) => {
                out.push(Probe::Polygon(polygon));
                assert(out@ =~= old(out)@ + probes_of(*self));
            },
            Geometry::MultiPoint(points) => {
                let mut i: usize = 0;
                assert(out@ =~= old(out)@ + point_probes(points@).take(0));
                while i < points.len()
                    invariant
                        i <= points@.len(),
                        out@ == old(out)@ + point_probes(points@).take(i as int),
                    decreases points@.len() - i,
                {
                    out.push(Probe::Point(points[i]));
                    assert(out@ =~= old(out)@ + point_probes(points@).take(i as int + 1));
                    i = i + 1;
                }
                assert(out@ =~= old(out)@ + probes_of(*self));
            },
            Geometry::MultiLineString(lines) => {
                let mut i: usize = 0;
                assert(out@ =~= old(out)@ + line_probes(lines@, 0));
                while i < lines.len()
                    invariant
                        i <= lines@.len(),
                        out@ == old(out)@ + line_probes(lines@, i as int),
                    decreases lines@.len() - i,
                {
                    push_segments(&lines[i], out);
                    assert(out@ =~= old(out)@ + line_probes(lines@, i as int + 1));
                    i = i + 1;
                }
            },
            Geometry::MultiPolygon(polygons) => {
                let mut i: usize = 0;
                assert(out@ =~= old(out)@ + polygon_probes(polygons@).take(0));
                while i < polygons.len()
                    invariant
                        i <= polygons@.len(),
                        out@ == old(out)@ + polygon_probes(polygons@).take(i as int),
                    decreases polygons@.len() - i,
                {
                    out.push(Probe::Polygon(&polygons[i]));
                    assert(out@ =~= old(out)@ + polygon_probes(polygons@).take(i as int + 1));
                    i = i + 1;
                }
                assert(out@ =~= old(out)@ + probes_of(*self));
            },
            Geometry::GeometryCollection(members) => {
                let mut i: usize = 0;
                assert(out@ =~= old(out)@ + probes_upto(*self, 0));
                while i < members.len()
                    invariant
                        i <= members@.len(),
                        *self == Geometry::GeometryCollection(*members),
                        out@ == old(out)@ + probes_upto(*self, i as int),
                    decreases members@.len() - i,
                {
                    proof {
                        vstd::std_specs::vec::axiom_vec_index_decreases(*members, i as int);
                    }
                    members[i].collect(out);
                    assert(out@ =~= old(out)@ + probes_upto(*self, i as int + 1));
                    i = i + 1;
                }
            },
            Geometry::Rect(min, max) => {
                out.push(Probe::Rect(*min, *max));
                assert(out@ =~= old(out)@ + probes_of(*self));
            },
            Geometry::Triangle(a, b, c) => {
                out.push(Probe::Triangle(*a, *b, *c));
                assert(out@ =~= old(out)@ + probes_of(*self));
            },
        }
    }

    /// The work that the shape asks for, in the order in which its cells
    /// come out.
    pub fn probes<'a>(&'a self) -> (out: Vec<Probe<'a>>)
        ensures
            out@ == probes_of(*self),
    {
        let mut out: Vec<Probe<'a>> = Vec::new();
        self.collect(&mut out);
        assert(out@ =~= probes_of(*self));
        out
    }
}

} // verus!
