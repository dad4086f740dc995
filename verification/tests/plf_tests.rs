use piecewise_linear::{
    bogus_compare, frac_eq, line_in_domain, line_intersect, points_of_inflection_iter, sum,
    y_at_x, ClipResult, Coord, ExpandDomainStrategy, Frac, Line, PiecewiseLinearFunction, PoiStep,
};

fn fr(num: i64, den: i64) -> Frac {
    Frac::new(num, den).unwrap()
}

fn c(xn: i64, xd: i64, yn: i64, yd: i64) -> Coord {
    Coord { x: fr(xn, xd), y: fr(yn, yd) }
}

fn plf(points: Vec<Coord>) -> PiecewiseLinearFunction {
    PiecewiseLinearFunction::new(points).unwrap()
}

fn feq(a: Frac, b: Frac) -> bool {
    frac_eq(&a, &b)
}

fn coord_eq(a: Coord, b: Coord) -> bool {
    feq(a.x, b.x) && feq(a.y, b.y)
}

fn line_eq(a: Line, b: Line) -> bool {
    coord_eq(a.start, b.start) && coord_eq(a.end, b.end)
}

fn func_eq(a: &PiecewiseLinearFunction, b: &PiecewiseLinearFunction) -> bool {
    a.coordinates.len() == b.coordinates.len()
        && a.coordinates
            .iter()
            .zip(b.coordinates.iter())
            .all(|(p, q)| coord_eq(*p, *q))
}

/// A function with the shape of a stress-test curve: very large and very
/// small values at the edges, close interior breakpoints.
fn get_test_function() -> PiecewiseLinearFunction {
    plf(vec![
        c(-21, 4, -1_000_000_000_000_000, 1),
        c(-157, 100, 1, 10),
        c(-105, 100, 11, 100),
        c(1, 10, 1, 1),
        c(1, 1, 2, 1),
        c(2, 1, 3, 1),
        c(3, 1, 4, 1),
        c(1_000_000, 1, -1_000_000, 1),
    ])
}

#[test]
fn test_y_at_x() {
    let r = y_at_x(&Line::new(c(0, 1, 0, 1), c(1, 1, 1, 1)), fr(1, 4)).unwrap();
    assert!(feq(r, fr(1, 4)));
    let r = y_at_x(&Line::new(c(1, 1, 0, 1), c(2, 1, 1, 1)), fr(5, 4)).unwrap();
    assert!(feq(r, fr(1, 4)));
}

#[test]
fn test_constant() {
    assert!(PiecewiseLinearFunction::constant((fr(1, 2), fr(1, 2)), fr(1, 1)).is_none());
    assert!(PiecewiseLinearFunction::constant((fr(1, 2), fr(-1, 2)), fr(1, 1)).is_none());
    let f = PiecewiseLinearFunction::constant((fr(-25, 1), fr(-13, 1)), fr(1, 1)).unwrap();
    assert!(func_eq(&f, &plf(vec![c(-25, 1, 1, 1), c(-13, 1, 1, 1)])));
}

#[test]
fn test_domain() {
    let f = PiecewiseLinearFunction::constant((fr(-4, 1), fr(21, 4)), fr(41, 5)).unwrap();
    let d = f.domain();
    assert!(feq(d.0, fr(-4, 1)));
    assert!(feq(d.1, fr(21, 4)));
}

#[test]
fn test_segment_at_x() {
    let l = get_test_function().segment_at_x(fr(3, 2)).unwrap();
    assert!(line_eq(l, Line::new(c(1, 1, 2, 1), c(2, 1, 3, 1))));
    let l = get_test_function().segment_at_x(fr(1, 1)).unwrap();
    assert!(line_eq(l, Line::new(c(1, 10, 1, 1), c(1, 1, 2, 1))));
}

#[test]
fn test_segments_iter() {
    let f = plf(vec![c(0, 1, 0, 1), c(1, 1, 1, 1), c(2, 1, 3, 2)]);
    let mut it = f.segments_iter();
    let mut segments: Vec<Line> = Vec::new();
    while let Some(l) = it.next() {
        segments.push(l);
    }
    assert!(segments.len() == 2);
    assert!(line_eq(segments[0], Line::new(c(0, 1, 0, 1), c(1, 1, 1, 1))));
    assert!(line_eq(segments[1], Line::new(c(1, 1, 1, 1), c(2, 1, 3, 2))));
}

fn collect_points(
    it: &mut piecewise_linear::PointsOfInflectionIterator,
) -> Vec<(Frac, Vec<Frac>)> {
    let mut out = Vec::new();
    loop {
        match it.next() {
            PoiStep::Point(x, vs) => out.push((x, vs)),
            PoiStep::Finished => return out,
            PoiStep::Overflow => panic!("unrepresentable intermediate fraction"),
        }
    }
}

#[test]
fn test_points_of_inflection_iter() {
    let f = plf(vec![c(0, 1, 0, 1), c(1, 1, 1, 1), c(2, 1, 3, 2)]);
    let g = plf(vec![c(0, 1, 0, 1), c(3, 2, 3, 1), c(2, 1, 10, 1)]);
    let mut it = f.points_of_inflection_iter(&g).unwrap();
    let points = collect_points(&mut it);
    let expected: Vec<(Frac, Vec<Frac>)> = vec![
        (fr(0, 1), vec![fr(0, 1), fr(0, 1)]),
        (fr(1, 1), vec![fr(1, 1), fr(2, 1)]),
        (fr(3, 2), vec![fr(5, 4), fr(3, 1)]),
        (fr(2, 1), vec![fr(3, 2), fr(10, 1)]),
    ];
    assert_eq!(points.len(), expected.len());
    for (got, want) in points.iter().zip(expected.iter()) {
        assert!(feq(got.0, want.0));
        assert_eq!(got.1.len(), want.1.len());
        for (a, b) in got.1.iter().zip(want.1.iter()) {
            assert!(feq(*a, *b));
        }
    }
}

#[test]
fn test_line_in_domain() {
    let l = Line::new(c(-1, 1, 1, 1), c(0, 1, 2, 1));
    // Case 1 - fully outside
    assert_eq!(line_in_domain(&l, (fr(1, 1), fr(2, 1))), ClipResult::Outside);
    assert_eq!(line_in_domain(&l, (fr(-3, 1), fr(-2, 1))), ClipResult::Outside);
    assert_eq!(line_in_domain(&l, (fr(0, 1), fr(1, 1))), ClipResult::Outside);
    // Case 2 - fully inside
    match line_in_domain(&l, (fr(-2, 1), fr(1, 1))) {
        ClipResult::Clipped(r) => assert!(line_eq(r, Line::new(c(-1, 1, 1, 1), c(0, 1, 2, 1)))),
        _ => panic!("expected a clipped segment"),
    }
    // Case 3 - overlap to the right
    match line_in_domain(&l, (fr(-1, 2), fr(1, 2))) {
        ClipResult::Clipped(r) => assert!(line_eq(r, Line::new(c(-1, 2, 3, 2), c(0, 1, 2, 1)))),
        _ => panic!("expected a clipped segment"),
    }
    // Case 4 - overlap to the left
    match line_in_domain(&l, (fr(-1, 1), fr(-1, 4))) {
        ClipResult::Clipped(r) => assert!(line_eq(r, Line::new(c(-1, 1, 1, 1), c(-1, 4, 7, 4)))),
        _ => panic!("expected a clipped segment"),
    }
    // Case 5 - overlap on both sides
    match line_in_domain(&l, (fr(-3, 4), fr(-1, 4))) {
        ClipResult::Clipped(r) => assert!(line_eq(r, Line::new(c(-3, 4, 5, 4), c(-1, 4, 7, 4)))),
        _ => panic!("expected a clipped segment"),
    }
}

#[test]
fn test_shrink_domain() {
    let first_val = y_at_x(
        &Line::new(
            c(-105, 100, 11, 100),
            c(1, 10, 1, 1),
        ),
        fr(0, 1),
    )
    .unwrap();
    let shrunk = get_test_function()
        .shrink_domain((fr(0, 1), fr(1_000_000, 1)))
        .unwrap();
    let expected = plf(vec![
        Coord { x: fr(0, 1), y: first_val },
        c(1, 10, 1, 1),
        c(1, 1, 2, 1),
        c(2, 1, 3, 1),
        c(3, 1, 4, 1),
        c(1_000_000, 1, -1_000_000, 1),
    ]);
    assert!(func_eq(&shrunk, &expected));
}

#[test]
fn test_expand_domain() {
    let f = plf(vec![c(0, 1, 0, 1), c(1, 1, 1, 1), c(2, 1, 3, 2)]);

    // Case 1: no expansion
    let r = f
        .expand_domain((fr(0, 1), fr(2, 1)), ExpandDomainStrategy::ExtendSegment)
        .unwrap();
    assert!(func_eq(&r, &f));

    // Case 2: left expansion
    let r = f
        .expand_domain((fr(-1, 1), fr(2, 1)), ExpandDomainStrategy::ExtendSegment)
        .unwrap();
    assert!(func_eq(&r, &plf(vec![c(-1, 1, -1, 1), c(1, 1, 1, 1), c(2, 1, 3, 2)])));
    let r = f
        .expand_domain((fr(-1, 1), fr(2, 1)), ExpandDomainStrategy::ExtendValue)
        .unwrap();
    assert!(func_eq(
        &r,
        &plf(vec![c(-1, 1, 0, 1), c(0, 1, 0, 1), c(1, 1, 1, 1), c(2, 1, 3, 2)]),
    ));

    // Case 3: right expansion
    let r = f
        .expand_domain((fr(0, 1), fr(4, 1)), ExpandDomainStrategy::ExtendSegment)
        .unwrap();
    assert!(func_eq(&r, &plf(vec![c(0, 1, 0, 1), c(1, 1, 1, 1), c(4, 1, 5, 2)])));
    let r = f
        .expand_domain((fr(0, 1), fr(4, 1)), ExpandDomainStrategy::ExtendValue)
        .unwrap();
    assert!(func_eq(
        &r,
        &plf(vec![c(0, 1, 0, 1), c(1, 1, 1, 1), c(2, 1, 3, 2), c(4, 1, 3, 2)]),
    ));
}

#[test]
fn test_negative() {
    let f = plf(vec![c(0, 1, 0, 1), c(1, 1, 1, 1), c(2, 1, 3, 2)]);
    assert!(func_eq(
        &f.negate(),
        &plf(vec![c(0, 1, 0, 1), c(1, 1, -1, 1), c(2, 1, -3, 2)]),
    ));
}

#[test]
fn test_line_intersect() {
    let (x, y) = line_intersect(
        &Line::new(c(-2, 1, -1, 1), c(5, 1, 3, 1)),
        &Line::new(c(-1, 1, 4, 1), c(6, 1, 2, 1)),
    )
    .unwrap();
    assert!(feq(x, fr(25, 6)));
    assert!(feq(y, fr(53, 21)));
}

#[test]
fn test_add_values() {
    let f = plf(vec![c(0, 1, 0, 1), c(1, 1, 1, 1), c(2, 1, 3, 2)]);
    let g = plf(vec![c(0, 1, 0, 1), c(3, 2, 3, 1), c(2, 1, 10, 1)]);
    let s = f.add(&g).unwrap();
    let expected = plf(vec![
        c(0, 1, 0, 1),
        c(1, 1, 3, 1),
        c(3, 2, 17, 4),
        c(2, 1, 23, 2),
    ]);
    assert!(func_eq(&s, &expected));
    // The sum evaluates to the sum of the values, also between breakpoints.
    let sv = s.y_at_x(fr(1, 2)).unwrap();
    let fv = f.y_at_x(fr(1, 2)).unwrap();
    let gv = g.y_at_x(fr(1, 2)).unwrap();
    assert!(feq(sv, fr(3, 2)));
    assert!(feq(fv, fr(1, 2)));
    assert!(feq(gv, fr(1, 1)));
}

#[test]
fn test_free_points_of_inflection_iter() {
    let f = plf(vec![c(0, 1, 1, 1), c(2, 1, 1, 1)]);
    let g = plf(vec![c(0, 1, 0, 1), c(1, 1, 1, 1), c(2, 1, 0, 1)]);
    let h = plf(vec![c(0, 1, 2, 1), c(2, 1, 4, 1)]);
    let mut it = points_of_inflection_iter(&vec![f, g, h]).unwrap();
    let points = collect_points(&mut it);
    assert_eq!(points.len(), 3);
    assert!(feq(points[1].0, fr(1, 1)));
    assert_eq!(points[1].1.len(), 3);
    assert!(feq(points[1].1[0], fr(1, 1)));
    assert!(feq(points[1].1[1], fr(1, 1)));
    assert!(feq(points[1].1[2], fr(3, 1)));
    assert!(points_of_inflection_iter(&vec![]).is_none());
}

#[test]
fn test_sum_three() {
    let f = plf(vec![c(0, 1, 1, 1), c(2, 1, 1, 1)]);
    let g = plf(vec![c(0, 1, 0, 1), c(1, 1, 1, 1), c(2, 1, 0, 1)]);
    let h = plf(vec![c(0, 1, 2, 1), c(2, 1, 4, 1)]);
    let s = sum(&vec![f, g, h]).unwrap();
    let expected = plf(vec![c(0, 1, 3, 1), c(1, 1, 5, 1), c(2, 1, 5, 1)]);
    assert!(func_eq(&s, &expected));
}

#[test]
fn test_max_crossing() {
    let f = plf(vec![c(0, 1, 1, 1), c(1, 1, 0, 1)]);
    let g = plf(vec![c(0, 1, 0, 1), c(1, 1, 1, 1)]);
    let m = f.max(&g).unwrap();
    let expected = plf(vec![c(0, 1, 1, 1), c(1, 2, 1, 2), c(1, 1, 1, 1)]);
    assert!(func_eq(&m, &expected));
}

#[test]
fn test_min_via_max() {
    let f = plf(vec![c(0, 1, 1, 1), c(1, 1, 0, 1)]);
    let g = plf(vec![c(0, 1, 0, 1), c(1, 1, 1, 1)]);
    let m = f.min(&g).unwrap();
    let expected = plf(vec![c(0, 1, 0, 1), c(1, 2, 1, 2), c(1, 1, 0, 1)]);
    assert!(func_eq(&m, &expected));
    // The minimum is the negated maximum of the negations.
    let n = f.negate().max(&g.negate()).unwrap().negate();
    assert!(func_eq(&m, &n));
}

#[test]
fn test_abs() {
    let f = plf(vec![c(0, 1, -1, 1), c(1, 1, 1, 1)]);
    let a = f.abs().unwrap();
    let expected = plf(vec![c(0, 1, 1, 1), c(1, 2, 0, 1), c(1, 1, 1, 1)]);
    assert!(func_eq(&a, &expected));
}

#[test]
fn test_domain_mismatch() {
    let f = plf(vec![c(0, 1, 0, 1), c(2, 1, 1, 1)]);
    let g = plf(vec![c(0, 1, 0, 1), c(3, 1, 1, 1)]);
    assert!(f.add(&g).is_none());
    assert!(f.max(&g).is_none());
    assert!(f.min(&g).is_none());
    assert!(f.points_of_inflection_iter(&g).is_none());
    assert!(sum(&vec![f, g]).is_none());
}

#[test]
fn test_has_same_domain_as() {
    let f = plf(vec![c(0, 1, 0, 1), c(2, 1, 1, 1)]);
    let g = plf(vec![c(0, 2, 5, 1), c(4, 2, 7, 1)]);
    let h = plf(vec![c(0, 1, 0, 1), c(3, 1, 1, 1)]);
    assert!(f.has_same_domain_as(&g));
    assert!(!f.has_same_domain_as(&h));
}

#[test]
fn test_new_rejects_invalid() {
    // Fewer than two points.
    assert!(PiecewiseLinearFunction::new(vec![]).is_none());
    assert!(PiecewiseLinearFunction::new(vec![c(0, 1, 0, 1)]).is_none());
    // Not strictly increasing.
    assert!(PiecewiseLinearFunction::new(vec![c(0, 1, 0, 1), c(0, 1, 1, 1)]).is_none());
    assert!(PiecewiseLinearFunction::new(vec![c(1, 1, 0, 1), c(0, 1, 1, 1)]).is_none());
    // Equal x under different representations.
    assert!(PiecewiseLinearFunction::new(vec![c(1, 2, 0, 1), c(2, 4, 1, 1)]).is_none());
    // A component that is not a representable fraction.
    let bad = Coord { x: Frac { num: 0, den: 0 }, y: Frac { num: 0, den: 1 } };
    assert!(PiecewiseLinearFunction::new(vec![bad, c(1, 1, 1, 1)]).is_none());
}

#[test]
fn test_y_at_x_outside_domain() {
    let f = plf(vec![c(0, 1, 0, 1), c(1, 1, 1, 1)]);
    assert!(f.y_at_x(fr(-1, 1)).is_none());
    assert!(f.y_at_x(fr(2, 1)).is_none());
    assert!(f.segment_at_x(fr(-1, 1)).is_none());
    assert!(f.y_at_x(fr(1, 1)).is_some());
}

#[test]
fn test_shrink_domain_not_subset() {
    let f = plf(vec![c(0, 1, 0, 1), c(2, 1, 1, 1)]);
    assert!(f.shrink_domain((fr(-1, 1), fr(1, 1))).is_none());
    assert!(f.shrink_domain((fr(0, 1), fr(3, 1))).is_none());
}

#[test]
fn test_add_overflow_reported() {
    let big = 9_000_000_000_000_000_000;
    let f = plf(vec![
        Coord { x: fr(0, 1), y: fr(big, 1) },
        Coord { x: fr(1, 1), y: fr(big, 1) },
    ]);
    let g = plf(vec![
        Coord { x: fr(0, 1), y: fr(big, 1) },
        Coord { x: fr(1, 1), y: fr(big, 1) },
    ]);
    // The exact sum of the values is not representable.
    assert!(f.add(&g).is_none());
}

#[test]
fn test_integrate() {
    let f = plf(vec![c(0, 1, 0, 1), c(2, 1, 2, 1)]);
    // One segment: x_span * ((y1 + y2) / 2) = 2 * (0 + 2) / 2.
    assert!(feq(f.integrate().unwrap(), fr(2, 1)));
    let g = plf(vec![c(0, 1, 2, 1), c(1, 1, 2, 1)]);
    // The constant 2 over a unit interval integrates to 2.
    assert!(feq(g.integrate().unwrap(), fr(2, 1)));
    let h = plf(vec![c(0, 1, 1, 1), c(1, 1, 2, 1), c(3, 1, 0, 1)]);
    // 1 * (1 + 2) / 2 + 2 * (2 + 0) / 2 = 7 / 2.
    assert!(feq(h.integrate().unwrap(), fr(7, 2)));
}

#[test]
fn test_iterator_exhaustion() {
    let f = plf(vec![c(0, 1, 0, 1), c(1, 1, 1, 1)]);
    let g = plf(vec![c(0, 1, 2, 1), c(1, 1, 3, 1)]);
    let mut it = f.points_of_inflection_iter(&g).unwrap();
    let points = collect_points(&mut it);
    assert_eq!(points.len(), 2);
    // A finished engine yields nothing, repeatedly.
    assert!(matches!(it.next(), PoiStep::Finished));
    assert!(matches!(it.next(), PoiStep::Finished));
}

#[test]
fn test_bogus_compare() {
    assert_eq!(
        bogus_compare(&fr(1, 2), &fr(3, 4)),
        std::cmp::Ordering::Less,
    );
    assert_eq!(
        bogus_compare(&fr(1, 2), &fr(2, 4)),
        std::cmp::Ordering::Equal,
    );
    assert_eq!(
        bogus_compare(&fr(3, 4), &fr(1, 2)),
        std::cmp::Ordering::Greater,
    );
}

#[test]
fn test_frac_new_normalizes() {
    let a = Frac::new(1, -2).unwrap();
    assert_eq!(a.num, -1);
    assert_eq!(a.den, 2);
    assert!(Frac::new(1, 0).is_none());
    assert!(Frac::new(i64::MIN, 1).is_none());
}
