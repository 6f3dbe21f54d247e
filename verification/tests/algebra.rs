use h3o::covering::{max_cells_count, to_cells, Fill, ResolutionMismatch};
use h3o::dispatch::Probe;
use h3o::geometry::{coord_is_valid, Coord, Geometry, InvalidGeometry, Polygon};
use h3o::hierarchy::{hexagon_children_count, pentagon_children_count};
use h3o::text::{format_radix, parse_digits};
use h3o::{CellIndex, Direction, InvalidCellIndex, Resolution};

fn cell(raw: u64) -> CellIndex {
    CellIndex::try_from(raw).expect("cell")
}

#[test]
fn raw_value_round_trip() {
    for raw in [
        0x8a1fb46622dffff_u64,
        0x8009fffffffffff,
        0x8fc3b0804200001,
        0x881fb46623fffff,
        0o42404000000000277777,
    ] {
        assert_eq!(cell(raw).to_u64(), raw);
    }
}

#[test]
fn accessors_read_the_fields() {
    let index = cell(0x8a1fb46622dffff);
    assert_eq!(index.resolution(), Resolution::Ten);
    assert_eq!(index.base_cell(), 15);
    assert_eq!(index.direction_at(Resolution::One), Some(Direction::IJ));
    assert_eq!(index.direction_at(Resolution::Five), Some(Direction::K));
    assert_eq!(index.direction_at(Resolution::Ten), Some(Direction::JK));
    assert_eq!(index.direction_at(Resolution::Eleven), None);
    assert_eq!(index.direction_at(Resolution::Zero), None);
    assert_eq!(Direction::from_value(7), None);
    assert_eq!(Direction::from_value(4), Some(Direction::I));
    assert_eq!(Direction::IK.value(), 5);
    assert!(!index.is_pentagon());
    assert!(cell(0x8009fffffffffff).is_pentagon());
    assert!(cell(0o42404000000000077777).is_pentagon());
    assert!(!cell(0o42404000000000277777).is_pentagon());
}

#[test]
fn invalid_raw_values_are_rejected() {
    // High reserved bit set.
    let raw = 0x8a1fb46622dffff_u64 | (1 << 63);
    assert_eq!(
        CellIndex::try_from(raw),
        Err(InvalidCellIndex { value: Some(raw) })
    );
    // Wrong mode.
    assert!(CellIndex::try_from(0x9a1fb46622dffff).is_err());
    assert!(CellIndex::try_from(0x0a1fb46622dffff).is_err());
    // Reserved bits set.
    assert!(CellIndex::try_from(0x8b1fb46622dffff).is_err());
    // Base cell out of range.
    assert!(CellIndex::try_from(0x80f5fffffffffff).is_err());
    // A used slot holds the unused marker.
    assert!(CellIndex::try_from(0o42417664314213777777).is_err());
    // An unused slot holds a direction.
    assert!(CellIndex::try_from(0o42417664314213307777).is_err());
    // First non-zero digit under a pentagon is the missing direction.
    assert!(CellIndex::try_from(0o42404000000000177777).is_err());
    assert!(CellIndex::try_from(0o42404100000000077777).is_err());
    assert!(CellIndex::try_from(0o42404020000010077777).is_ok());
    assert!(CellIndex::try_from(0).is_err());
    assert!(CellIndex::try_from(u64::MAX).is_err());
}

#[test]
fn parent_truncates_the_path() {
    let index = cell(0x8a1fb46622dffff);
    assert_eq!(index.parent(Resolution::Eight), Some(cell(0x881fb46623fffff)));
    assert_eq!(index.parent(Resolution::Ten), Some(index));
    assert_eq!(index.parent(Resolution::Eleven), None);
    assert_eq!(
        index.parent(Resolution::Zero).map(|c| c.to_u64()),
        Some(0x801ffffffffffff)
    );
}

#[test]
fn first_and_last_values() {
    assert_eq!(CellIndex::first(Resolution::Zero).to_u64(), 0x8001fffffffffff);
    assert_eq!(CellIndex::last(Resolution::Zero).to_u64(), 0x80f3fffffffffff);
    assert_eq!(
        CellIndex::first(Resolution::Ten).to_u64(),
        0o42400000000000077777
    );
    assert_eq!(
        CellIndex::last(Resolution::Ten).to_u64(),
        0o42571666666666677777
    );
    assert_eq!(CellIndex::last(Resolution::Fifteen).to_u64(), 0x8ff3b6db6db6db6);
}

#[test]
fn succ_and_pred_are_inverses() {
    let mut index = cell(0o42403666666666477777);
    for _ in 0..200 {
        let next = index.succ().expect("next");
        assert!(next > index);
        assert_eq!(next.pred(), Some(index));
        assert_eq!(CellIndex::try_from(next.to_u64()), Ok(next));
        index = next;
    }
    let mut index = cell(0o42405000000000377777);
    for _ in 0..200 {
        let before = index.pred().expect("previous");
        assert!(before < index);
        assert_eq!(before.succ(), Some(index));
        index = before;
    }
}

#[test]
fn succ_enumerates_the_children_of_a_pentagon() {
    let parent = cell(0x8009fffffffffff);
    let target = Resolution::Two;
    let count = parent.children_count(target);
    assert_eq!(count, 41);
    let mut index = parent.child_at(0, target).expect("first child");
    for position in 0..count {
        assert_eq!(parent.child_at(position, target), Some(index));
        assert_eq!(index.child_position(Resolution::Zero), Some(position));
        assert_eq!(index.parent(Resolution::Zero), Some(parent));
        index = index.succ().expect("next");
    }
    assert_eq!(parent.child_at(count, target), None);
    assert_ne!(index.parent(Resolution::Zero), Some(parent));
}

#[test]
fn children_counts() {
    assert_eq!(hexagon_children_count(0), 1);
    assert_eq!(hexagon_children_count(2), 49);
    assert_eq!(hexagon_children_count(15), 4_747_561_509_943);
    assert_eq!(pentagon_children_count(0), 1);
    assert_eq!(pentagon_children_count(1), 6);
    assert_eq!(pentagon_children_count(2), 41);
    assert_eq!(pentagon_children_count(15), 3_956_301_258_286);
    let hexagon = cell(0x881fb46623fffff);
    assert_eq!(hexagon.children_count(Resolution::Ten), 49);
    assert_eq!(hexagon.children_count(Resolution::Eight), 1);
    assert_eq!(hexagon.children_count(Resolution::Seven), 0);
    assert_eq!(hexagon.child_at(48, Resolution::Ten).map(|c| c.to_u64()), Some(0x8a1fb46623b7fff));
    assert_eq!(hexagon.child_at(49, Resolution::Ten), None);
    assert_eq!(hexagon.child_at(0, Resolution::Eight), Some(hexagon));
    assert_eq!(hexagon.child_at(1, Resolution::Eight), None);
}

#[test]
fn child_position_under_a_pentagon_skips_the_missing_direction() {
    // Base cell 4, digits 2 then 0: five cells under the centre child and
    // none under the missing direction come before.
    let index = cell(0x820887fffffffff);
    assert_eq!(index.resolution(), Resolution::Two);
    assert_eq!(index.base_cell(), 4);
    assert_eq!(index.child_position(Resolution::Zero), Some(6));
    assert_eq!(index.child_position(Resolution::One), Some(0));
    assert_eq!(index.child_position(Resolution::Two), Some(0));
}

#[test]
fn resolution_steps_do_not_wrap() {
    assert_eq!(Resolution::Fifteen.succ(), None);
    assert_eq!(Resolution::Zero.pred(), None);
    assert_eq!(Resolution::Three.succ(), Some(Resolution::Four));
    assert_eq!(Resolution::Three.pred(), Some(Resolution::Two));
    assert_eq!(Resolution::from_value(16), None);
    assert_eq!(Resolution::from_value(12), Some(Resolution::Twelve));
    assert_eq!(Resolution::Twelve.value(), 12);
    assert_eq!(
        Resolution::range(Resolution::Two, Resolution::Four),
        vec![Resolution::Two, Resolution::Three, Resolution::Four]
    );
    assert!(Resolution::range(Resolution::Four, Resolution::Two).is_empty());
    assert_eq!(Resolution::range(Resolution::Zero, Resolution::Fifteen).len(), 16);
}

#[test]
fn string_round_trip() {
    for raw in [0x8a1fb46622dffff_u64, 0x8009fffffffffff, 0x8fc3b0804200001] {
        let index = cell(raw);
        assert_eq!(CellIndex::from_str(&index.to_string()), Ok(index));
        assert_eq!(CellIndex::from_str(&index.to_upper_hex()), Ok(index));
    }
}

#[test]
fn parse_errors() {
    assert_eq!(CellIndex::from_str(""), Err(InvalidCellIndex { value: None }));
    assert_eq!(
        CellIndex::from_str("8a1fb46622dfffg"),
        Err(InvalidCellIndex { value: None })
    );
    assert_eq!(
        CellIndex::from_str("10000000000000000"),
        Err(InvalidCellIndex { value: None })
    );
    assert_eq!(
        CellIndex::from_str("ffffffffffffffff"),
        Err(InvalidCellIndex { value: Some(u64::MAX) })
    );
    assert_eq!(CellIndex::from_str("0"), Err(InvalidCellIndex { value: Some(0) }));
}

#[test]
fn digits_in_each_radix() {
    let text = format_radix;
    assert_eq!(text(0, 16, false), "0");
    assert_eq!(text(255, 16, false), "ff");
    assert_eq!(text(255, 16, true), "FF");
    assert_eq!(text(255, 8, false), "377");
    assert_eq!(text(5, 2, false), "101");
    assert_eq!(text(u64::MAX, 16, false), "ffffffffffffffff");
    assert_eq!(parse_digits("00fF"), Some(255));
    assert_eq!(parse_digits("+ff"), None);
    assert_eq!(parse_digits(""), None);
    assert_eq!(parse_digits("ffffffffffffffff"), Some(u64::MAX));
    assert_eq!(parse_digits("10000000000000000"), None);
}

#[test]
fn coordinates_are_checked_by_range() {
    let coord = |x: f64, y: f64| Coord { x: x.to_bits(), y: y.to_bits() };
    let pi = std::f64::consts::PI;
    assert!(coord_is_valid(coord(0.0, 0.0)));
    assert!(coord_is_valid(coord(-0.0, -0.0)));
    assert!(coord_is_valid(coord(2.0 * pi, pi)));
    assert!(coord_is_valid(coord(-2.0 * pi, -pi)));
    assert!(coord_is_valid(coord(0.0409980285, 0.852850182)));
    assert!(!coord_is_valid(coord(2.0 * pi + 1e-9, 0.0)));
    assert!(!coord_is_valid(coord(0.0, pi + 1e-9)));
    assert!(!coord_is_valid(coord(0.0, -pi - 1e-9)));
    assert!(!coord_is_valid(coord(f64::NAN, 0.0)));
    assert!(!coord_is_valid(coord(0.0, f64::INFINITY)));
    assert!(!coord_is_valid(coord(f64::NEG_INFINITY, 0.0)));
}

#[test]
fn geometry_is_validated_once() {
    let coord = |x: f64, y: f64| Coord { x: x.to_bits(), y: y.to_bits() };
    let good = coord(0.1, 0.2);
    let bad = coord(7.0, 0.2);
    assert_eq!(
        Geometry::from_radians(Geometry::Point(good)),
        Ok(Geometry::Point(good))
    );
    assert_eq!(
        Geometry::from_radians(Geometry::Point(bad)),
        Err(InvalidGeometry {})
    );
    assert!(Geometry::from_radians(Geometry::Line(good, bad)).is_err());
    assert!(Geometry::from_radians(Geometry::LineString(vec![good, good])).is_ok());
    assert!(Geometry::from_radians(Geometry::LineString(vec![])).is_ok());
    assert!(Geometry::from_radians(Geometry::MultiPoint(vec![good, bad])).is_err());
    assert!(Geometry::from_radians(Geometry::Rect(good, good)).is_ok());
    assert!(Geometry::from_radians(Geometry::Triangle(good, good, bad)).is_err());
    let polygon = |hole: Coord| Polygon {
        exterior: vec![good, good, good],
        interiors: vec![vec![good], vec![hole]],
    };
    assert!(Geometry::from_radians(Geometry::Polygon(polygon(good))).is_ok());
    assert!(Geometry::from_radians(Geometry::Polygon(polygon(bad))).is_err());
    assert!(Geometry::from_radians(Geometry::MultiPolygon(vec![polygon(good), polygon(bad)])).is_err());
    assert!(Geometry::from_radians(Geometry::MultiLineString(vec![vec![good], vec![bad]])).is_err());
    let nested = |inner: Coord| {
        Geometry::GeometryCollection(vec![
            Geometry::Point(good),
            Geometry::GeometryCollection(vec![Geometry::Point(inner)]),
        ])
    };
    assert!(Geometry::from_radians(nested(good)).is_ok());
    assert!(Geometry::from_radians(nested(bad)).is_err());
}

#[test]
fn collection_bound_and_cells() {
    let a = cell(0x8a1fb46622dffff);
    let b = cell(0x8a1fb46622d7fff);
    let parts = vec![vec![a, b], vec![], vec![b]];
    let cells = to_cells(&parts);
    assert_eq!(cells, vec![a, b, b]);
    assert_eq!(to_cells(&parts), cells);
    let counts = vec![2_usize, 0, 1];
    assert_eq!(max_cells_count(&counts), 3);
    assert!(max_cells_count(&counts) >= cells.len());
    assert_eq!(max_cells_count(&vec![]), 0);
    assert_eq!(max_cells_count(&vec![usize::MAX, 5]), usize::MAX);
    assert_eq!(to_cells(&vec![]), vec![]);
}

#[test]
fn fill_takes_each_cell_once() {
    let seed = cell(0x8a1fb46622dffff);
    let inside = cell(0x8a1fb46622d7fff);
    let outside = cell(0x8a1fb4644937fff);
    let run = || {
        let mut fill = Fill::new(seed);
        assert_eq!(fill.next(), Some(seed));
        assert!(!fill.classify(seed, true));
        assert!(fill.classify(inside, true));
        assert!(!fill.classify(inside, true));
        assert!(!fill.classify(outside, false));
        assert!(!fill.classify(outside, true));
        assert_eq!(fill.next(), Some(inside));
        assert_eq!(fill.next(), None);
        fill.into_cells()
    };
    let cells = run();
    assert_eq!(cells, vec![seed, inside]);
    assert_eq!(run(), cells);
}

#[test]
fn same_cell() {
    let a = cell(0x8a1fb46622dffff);
    assert!(a.is_valid());
    assert!(CellIndex::first(Resolution::Fifteen).is_valid());
    assert!(CellIndex::last(Resolution::Zero).is_valid());
    assert!(a.same(cell(0x8a1fb46622dffff)));
    assert!(!a.same(cell(0x8a1fb46622d7fff)));
}

#[test]
fn neighbors_are_symmetric() {
    let a = cell(0x8a1fb46622dffff);
    let b = cell(0x8a1fb46622d7fff);
    let far = cell(0x8a1fb4644937fff);
    let coarse = cell(0x881fb46623fffff);
    let around_a = vec![b];
    let around_b = vec![a];
    assert_eq!(a.is_neighbor_with(b, &around_a), b.is_neighbor_with(a, &around_b));
    assert_eq!(a.is_neighbor_with(b, &around_a), Ok(true));
    assert_eq!(a.is_neighbor_with(far, &around_a), Ok(false));
    assert_eq!(far.is_neighbor_with(a, &vec![]), Ok(false));
    assert_eq!(a.is_neighbor_with(coarse, &around_a), Err(ResolutionMismatch {}));
    assert_eq!(coarse.is_neighbor_with(a, &vec![a]), Err(ResolutionMismatch {}));
}

#[test]
fn probes_follow_the_members() {
    let coord = |x: f64, y: f64| Coord { x: x.to_bits(), y: y.to_bits() };
    let a = coord(0.1, 0.2);
    let b = coord(0.3, 0.4);
    let c = coord(0.5, 0.6);
    let polygon = Polygon { exterior: vec![a, b, c, a], interiors: vec![] };
    assert_eq!(Geometry::Point(a).probes(), vec![Probe::Point(a)]);
    assert_eq!(Geometry::Line(a, b).probes(), vec![Probe::Segment(a, b)]);
    assert_eq!(
        Geometry::LineString(vec![a, b, c]).probes(),
        vec![Probe::Segment(a, b), Probe::Segment(b, c)]
    );
    assert_eq!(Geometry::LineString(vec![a]).probes(), vec![]);
    assert_eq!(Geometry::LineString(vec![]).probes(), vec![]);
    assert_eq!(
        Geometry::MultiPoint(vec![a, b]).probes(),
        vec![Probe::Point(a), Probe::Point(b)]
    );
    assert_eq!(
        Geometry::MultiLineString(vec![vec![a, b], vec![c], vec![b, c]]).probes(),
        vec![Probe::Segment(a, b), Probe::Segment(b, c)]
    );
    assert_eq!(
        Geometry::Polygon(polygon.clone()).probes(),
        vec![Probe::Polygon(&polygon)]
    );
    assert_eq!(
        Geometry::MultiPolygon(vec![polygon.clone(), polygon.clone()]).probes(),
        vec![Probe::Polygon(&polygon), Probe::Polygon(&polygon)]
    );
    assert_eq!(Geometry::Rect(a, c).probes(), vec![Probe::Rect(a, c)]);
    assert_eq!(Geometry::Triangle(a, b, c).probes(), vec![Probe::Triangle(a, b, c)]);
    let nested = Geometry::GeometryCollection(vec![
        Geometry::Point(a),
        Geometry::GeometryCollection(vec![Geometry::Line(a, b), Geometry::Point(a)]),
        Geometry::GeometryCollection(vec![]),
        Geometry::Rect(a, b),
    ]);
    assert_eq!(
        nested.probes(),
        vec![
            Probe::Point(a),
            Probe::Segment(a, b),
            Probe::Point(a),
            Probe::Rect(a, b)
        ]
    );
    assert_eq!(nested.clone(), nested);
}
