use gemini::astronomicals::outer_bound;
use gemini::location::Location;
use gemini::route::{OrdPoint, RouteSearch, Step, UNSEEN_COST};
use nalgebra::{distance, Point3};
use spade::rtree::RTree;

fn wrap(point: &Point3<f64>) -> Location {
    Location::new(point.x.to_bits(), point.y.to_bits(), point.z.to_bits())
}

fn unwrap(location: &Location) -> Point3<f64> {
    Point3::new(f64::from_bits(location.x), f64::from_bits(location.y), f64::from_bits(location.z))
}

fn index(points: &[Point3<f64>]) -> RTree<Point3<f64>> {
    let mut map = RTree::new();
    for point in points {
        map.insert(point.clone());
    }
    map
}

/// Drives a search over the points in `map`, measuring as the library asks.
fn route(
    map: &RTree<Point3<f64>>,
    start: &Point3<f64>,
    goal: &Point3<f64>,
    range: f64,
    max_jumps: Option<u32>,
) -> Option<(f64, Vec<Point3<f64>>)> {
    let mut search = RouteSearch::new(wrap(start), wrap(goal));
    loop {
        match search.advance() {
            Step::Found(_) => {
                return search
                    .finish(max_jumps)
                    .map(|(cost, path)| (f64::from_bits(cost), path.iter().map(unwrap).collect()));
            }
            Step::Exhausted => return None,
            Step::Expand(current) => {
                let point = unwrap(&current.point);
                let weight = f64::from_bits(current.weight);
                let candidates: Vec<OrdPoint> = map
                    .lookup_in_circle(&point, &f64::from_bits(outer_bound(range.max(0.).powi(2).to_bits())))
                    .iter()
                    .map(|neighbor| OrdPoint {
                        weight: (weight + distance(&point, neighbor) + distance(&point, goal)).to_bits(),
                        point: wrap(neighbor),
                    })
                    .collect();
                assert!(candidates.iter().all(|c| c.weight >= current.weight));
                search.relax(&candidates);
            }
        }
    }
}

fn chain() -> Vec<Point3<f64>> {
    vec![
        Point3::new(0., 0., 0.),
        Point3::new(5., 0., 0.),
        Point3::new(10., 0., 0.),
        Point3::new(15., 0., 0.),
        Point3::new(5., 20., 0.),
    ]
}

#[test]
fn the_only_chain_of_jumps_is_found() {
    let points = chain();
    let map = index(&points);
    let found = route(&map, &points[0], &points[3], 6., None);
    // Each jump adds its length and the distance left at its start:
    // (5 + 15) + (5 + 10) + (5 + 5).
    assert_eq!(found, Some((45., vec![points[0], points[1], points[2], points[3]])));
}

#[test]
fn a_range_below_the_jumps_needed_finds_no_route() {
    let points = chain();
    let map = index(&points);
    assert_eq!(route(&map, &points[0], &points[3], 4.9, None), None);
    assert_eq!(route(&map, &points[0], &points[3], 0., None), None);
    assert_eq!(route(&map, &points[0], &points[3], -3., None), None);
    // A jump of exactly the range is legal.
    assert!(route(&map, &points[0], &points[3], 5., None).is_some());
}

#[test]
fn an_isolated_goal_is_not_reached() {
    let points = chain();
    let map = index(&points);
    assert_eq!(route(&map, &points[0], &points[4], 6., None), None);
}

#[test]
fn a_longer_range_takes_fewer_jumps() {
    let points = chain();
    let map = index(&points);
    let found = route(&map, &points[0], &points[3], 10., None);
    // 0 -> 10 -> 15: (10 + 15) + (5 + 5); through 5 it would be (5 + 15) +
    // (10 + 10) as well, and the entry pushed first wins.
    let (cost, path) = found.unwrap();
    assert_eq!(cost, 35.);
    assert_eq!(path.first(), Some(&points[0]));
    assert_eq!(path.last(), Some(&points[3]));
    assert_eq!(path.len(), 3);
    let direct = route(&map, &points[0], &points[3], 15., None);
    assert_eq!(direct, Some((30., vec![points[0], points[3]])));
}

#[test]
fn the_route_to_where_one_is_costs_nothing() {
    let points = chain();
    let map = index(&points);
    assert_eq!(route(&map, &points[1], &points[1], 6., None), Some((0., vec![points[1]])));
    assert_eq!(route(&map, &points[1], &points[1], 6., Some(0)), Some((0., vec![points[1]])));
}

#[test]
fn a_jump_budget_bounds_the_path() {
    let points = chain();
    let map = index(&points);
    assert!(route(&map, &points[0], &points[3], 6., Some(3)).is_some());
    assert!(route(&map, &points[0], &points[3], 6., Some(4)).is_some());
    assert_eq!(route(&map, &points[0], &points[3], 6., Some(2)), None);
    assert_eq!(route(&map, &points[0], &points[3], 6., Some(0)), None);
}

#[test]
fn the_cheaper_of_two_ways_is_taken() {
    // Two ways round an obstacle: over (4, 3) or over (4, -6).
    let points = vec![
        Point3::new(0., 0., 0.),
        Point3::new(4., 3., 0.),
        Point3::new(4., -6., 0.),
        Point3::new(8., 0., 0.),
    ];
    let map = index(&points);
    let (cost, path) = route(&map, &points[0], &points[3], 7.5, None).unwrap();
    assert_eq!(path, vec![points[0], points[1], points[3]]);
    assert_eq!(cost, (5. + 8.) + (5. + 5.));
}

#[test]
fn a_search_begins_with_its_start_alone() {
    let start = Location::new(1, 2, 3);
    let goal = Location::new(4, 5, 6);
    let mut search = RouteSearch::new(start, goal);
    assert_eq!(search.path(), None);
    assert_eq!(search.finish(None), None);
    assert_eq!(search.advance(), Step::Expand(OrdPoint { weight: 0, point: start }));
    search.relax(&Vec::new());
    assert_eq!(search.advance(), Step::Exhausted);
    assert_eq!(search.finish(None), None);
}

#[test]
fn overtaken_entries_are_dropped() {
    let start = Location::new(0, 0, 0);
    let via = Location::new(1, 0, 0);
    let far = Location::new(2, 0, 0);
    let goal = Location::new(9, 9, 9);
    let mut search = RouteSearch::new(start, goal);
    assert_eq!(search.advance(), Step::Expand(OrdPoint { weight: 0, point: start }));
    // The same point offered twice: the second offer is cheaper and overtakes
    // the first; a third, dearer one is not recorded.
    search.relax(&vec![
        OrdPoint { weight: 50, point: far },
        OrdPoint { weight: 10, point: via },
        OrdPoint { weight: 40, point: far },
        OrdPoint { weight: 45, point: far },
    ]);
    assert_eq!(search.advance(), Step::Expand(OrdPoint { weight: 10, point: via }));
    search.relax(&vec![OrdPoint { weight: 60, point: goal }]);
    assert_eq!(search.advance(), Step::Expand(OrdPoint { weight: 40, point: far }));
    search.relax(&vec![OrdPoint { weight: 55, point: goal }]);
    // The entry of weight 50 is passed over without being expanded.
    assert_eq!(search.advance(), Step::Found(55));
    assert_eq!(search.finish(None), Some((55, vec![start, far, goal])));
    assert_eq!(search.path(), Some(vec![start, far, goal]));
}

#[test]
fn equal_weights_leave_in_the_order_they_came() {
    let start = Location::new(0, 0, 0);
    let a = Location::new(1, 0, 0);
    let b = Location::new(2, 0, 0);
    let goal = Location::new(9, 9, 9);
    let mut search = RouteSearch::new(start, goal);
    search.advance();
    search.relax(&vec![OrdPoint { weight: 7, point: a }, OrdPoint { weight: 7, point: b }]);
    assert_eq!(search.advance(), Step::Expand(OrdPoint { weight: 7, point: a }));
    search.relax(&Vec::new());
    assert_eq!(search.advance(), Step::Expand(OrdPoint { weight: 7, point: b }));
}

#[test]
fn a_cost_that_is_not_finite_is_never_recorded() {
    let start = Location::new(0, 0, 0);
    let a = Location::new(1, 0, 0);
    let b = Location::new(2, 0, 0);
    let c = Location::new(3, 0, 0);
    let mut search = RouteSearch::new(start, a);
    search.advance();
    search.relax(&vec![
        OrdPoint { weight: f64::INFINITY.to_bits(), point: a },
        OrdPoint { weight: f64::NAN.to_bits(), point: b },
        OrdPoint { weight: f64::MAX.to_bits(), point: c },
    ]);
    assert_eq!(UNSEEN_COST, f64::MAX.to_bits());
    assert_eq!(search.advance(), Step::Exhausted);
}

#[test]
fn answers_without_a_question_change_nothing() {
    let start = Location::new(0, 0, 0);
    let goal = Location::new(1, 0, 0);
    let mut search = RouteSearch::new(start, goal);
    search.relax(&vec![OrdPoint { weight: 1, point: goal }]);
    assert_eq!(search.advance(), Step::Expand(OrdPoint { weight: 0, point: start }));
    search.relax(&Vec::new());
    assert_eq!(search.advance(), Step::Exhausted);
}

/// The least cost of any chain of jumps from `start` to `goal`, found by
/// trying every jump again and again until no cost falls.
fn least_cost(points: &[Point3<f64>], start: usize, goal: usize, range: f64) -> Option<f64> {
    let mut best = vec![f64::INFINITY; points.len()];
    best[start] = 0.;
    loop {
        let mut fell = false;
        for p in 0..points.len() {
            if best[p].is_infinite() {
                continue;
            }
            for q in 0..points.len() {
                if distance(&points[p], &points[q]) <= range {
                    let cost = best[p] + distance(&points[p], &points[q]) + distance(&points[p], &points[goal]);
                    if cost < best[q] {
                        best[q] = cost;
                        fell = true;
                    }
                }
            }
        }
        if !fell {
            break;
        }
    }
    if best[goal].is_infinite() {
        None
    } else {
        Some(best[goal])
    }
}

#[test]
fn no_chain_of_jumps_is_cheaper_than_the_route_found() {
    let mut state: u64 = 0x2545_F491_4F6C_DD1D;
    let mut next = move || {
        state ^= state << 13;
        state ^= state >> 7;
        state ^= state << 17;
        state
    };
    for _ in 0..60 {
        // Points on a grid, so that every distance squared is exact.
        let mut points: Vec<Point3<f64>> = Vec::new();
        while points.len() < 12 {
            let point = Point3::new((next() % 9) as f64, (next() % 9) as f64, (next() % 3) as f64);
            if !points.contains(&point) {
                points.push(point);
            }
        }
        let map = index(&points);
        for &range in [2.5, 3.5, 5.5].iter() {
            let found = route(&map, &points[0], &points[1], range, None);
            let least = least_cost(&points, 0, 1, range);
            assert_eq!(found.as_ref().map(|(cost, _)| *cost), least);
            if let Some((cost, path)) = found {
                // The cost is the cost of the path, and every jump is in range.
                let mut along = 0.;
                for pair in path.windows(2) {
                    assert!(distance(&pair[0], &pair[1]) <= range);
                    along = along + distance(&pair[0], &pair[1]) + distance(&pair[0], &points[1]);
                }
                assert_eq!(along, cost);
                assert_eq!(path.first(), Some(&points[0]));
                assert_eq!(path.last(), Some(&points[1]));
            }
        }
    }
}
