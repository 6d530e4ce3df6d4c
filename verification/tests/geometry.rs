use stobga::geom::{
    Point, Bounds, point_in_polygon, middle, centroid, euclidean_distance, fermat_point,
};
use stobga::isect::{intersection_length, segment_polygon_intersection};
use stobga::problem::Obstacle;
use stobga::{SCALE, INF_COST};

fn c(v: f64) -> i64 {
    (v * SCALE as f64).round() as i64
}

fn pt(x: f64, y: f64) -> Point {
    Point { x: c(x), y: c(y) }
}

fn poly(ps: &[(f64, f64)]) -> Vec<Point> {
    ps.iter().map(|&(x, y)| pt(x, y)).collect()
}

fn bounds(min_x: f64, max_x: f64, min_y: f64, max_y: f64) -> Bounds {
    Bounds { min_x: c(min_x), min_y: c(min_y), max_x: c(max_x), max_y: c(max_y) }
}

#[test]
fn test_geometry() {
    assert_eq!(
        point_in_polygon(
            c(0.0),
            c(0.0),
            &poly(&[(-1.0, -1.0), (1.0, 1.0), (0.0, 2.0)]),
            &bounds(-1.0, 1.0, -1.0, 2.0),
        ),
        false
    )
}

#[test]
fn test_geometry2() {
    assert_eq!(
        segment_polygon_intersection(
            c(0.0),
            c(0.0),
            c(2.0),
            c(0.0),
            &poly(&[(1.0, 0.0), (1.0, -1.0), (-1.0, -1.0)]),
            true,
        ),
        vec![pt(1.0, 0.0)]
    );
    assert_eq!(
        intersection_length(
            c(0.0),
            c(0.0),
            c(2.0),
            c(0.0),
            &poly(&[(1.0, 0.0), (1.0, -1.0), (-1.0, -1.0)]),
            &bounds(-1.0, 1.0, -1.0, 0.0),
        ),
        0
    );
}

#[test]
fn test_geometry4() {
    assert_eq!(
        intersection_length(
            c(3.0),
            c(1.0),
            c(4.0),
            c(5.0),
            &poly(&[(0.0, 0.0), (3.0, 1.0), (4.0, 5.0)]),
            &bounds(0.0, 4.0, 0.0, 5.0),
        ),
        0
    )
}

#[test]
fn test_geometry6() {
    let m = middle(c(3.0), c(1.0), c(4.0), c(5.0));
    assert!(!point_in_polygon(
        m.x,
        m.y,
        &poly(&[(0.0, 0.0), (3.0, 1.0), (4.0, 5.0)]),
        &bounds(0.0, 4.0, 0.0, 5.0),
    ))
}

#[test]
fn test_geometry7() {
    let m = middle(c(0.0), c(0.0), c(4.0), c(5.0));
    assert!(!point_in_polygon(
        m.x,
        m.y,
        &poly(&[(0.0, 0.0), (3.0, 1.0), (4.0, 5.0)]),
        &bounds(0.0, 4.0, 0.0, 5.0),
    ))
}

#[test]
fn test_geometry8() {
    let m = middle(c(0.0), c(0.0), c(3.0), c(1.0));
    assert!(!point_in_polygon(
        m.x,
        m.y,
        &poly(&[(0.0, 0.0), (3.0, 1.0), (4.0, 5.0)]),
        &bounds(0.0, 4.0, 0.0, 5.0),
    ))
}

#[test]
fn test_geometry9() {
    assert_eq!(
        intersection_length(
            c(0.0),
            c(1.0),
            c(1.0),
            c(1.0),
            &poly(&[(0.0, 0.0), (1.0, 0.0), (0.5, -1.0)]),
            &bounds(0.0, 1.0, -1.0, 0.0),
        ),
        0
    )
}

#[test]
fn test_geometry10() {
    assert!(
        intersection_length(
            c(0.845641974),
            c(0.904959172),
            c(0.753467217),
            c(0.42431886),
            &poly(&[(0.796, 0.898), (0.804, 0.784), (0.906, 0.792), (0.908, 0.886)]),
            &bounds(0.0, 1.0, 0.0, 1.0),
        ) > 0
    )
}

#[test]
fn test_geometry11() {
    println!(
        "{}",
        intersection_length(
            c(0.936640447),
            c(0.706594727),
            c(0.753467217),
            c(0.42431886),
            &poly(&[
                (0.784, 0.522),
                (0.798, 0.44799999999999995),
                (0.906, 0.45199999999999996),
                (0.9, 0.534),
            ]),
            &bounds(0.0, 1.0, 0.0, 1.0),
        )
    );
    assert!(
        intersection_length(
            c(0.936640447),
            c(0.706594727),
            c(0.753467217),
            c(0.42431886),
            &poly(&[
                (0.784, 0.522),
                (0.798, 0.44799999999999995),
                (0.906, 0.45199999999999996),
                (0.9, 0.534),
            ]),
            &bounds(0.0, 1.0, 0.0, 1.0),
        ) > 0
    )
}

#[test]
fn problematic_intersection() {
    let obstacle = Obstacle::new(
        4 * SCALE,
        poly(&[
            (0.116, 0.39),
            (0.096, 0.29),
            (0.084, 0.206),
            (0.104, 0.048),
            (0.31, 0.018),
            (0.542, 0.072),
            (0.5, 0.192),
            (0.338, 0.144),
            (0.256, 0.13),
            (0.208, 0.158),
            (0.208, 0.27),
        ]),
    )
    .compute_bounds();
    let start = pt(0.182, 0.126);
    let end = pt(0.31, 0.018);
    let distance = intersection_length(
        start.x,
        start.y,
        end.x,
        end.y,
        &obstacle.points,
        &obstacle.bounds,
    );
    assert_eq!(distance, euclidean_distance(start, end));
}

#[test]
fn problematic_lengths() {
    let obstacle1 = Obstacle::new(
        INF_COST,
        poly(&[(0.83, 1.33), (2.7, 1.19), (0.91, 0.36), (8.16, 1.31), (6.43, 3.06)]),
    )
    .compute_bounds();
    let obstacle2 = Obstacle::new(
        INF_COST,
        poly(&[(0.56, 1.27), (2.16, 1.09), (0.56, 0.33), (1.14, 0.88)]),
    )
    .compute_bounds();
    let obstacle3 = Obstacle::new(INF_COST, poly(&[(0.19, 1.21), (0.82, 0.86), (0.18, 0.32)]))
        .compute_bounds();

    let steiner1 = pt(0.56, 0.33);
    let steiner2 = pt(0.82, 0.86);

    let convenience = |v1: Point, v2: Point, p: Obstacle| {
        intersection_length(v1.x, v1.y, v2.x, v2.y, &p.points, &p.bounds)
    };
    assert_eq!(convenience(steiner1, steiner2, obstacle1), 0);
    assert_eq!(convenience(steiner1, steiner2, obstacle2), 0);
    assert_eq!(convenience(steiner1, steiner2, obstacle3), 0);
}

#[test]
fn wrapping_an_obstacle() {
    let obstacle = Obstacle::new(
        9999999 * SCALE,
        poly(&[
            (0.168, 0.63),
            (0.168, 0.606),
            (0.188, 0.5840000000000001),
            (0.226, 0.5920000000000001),
            (0.336, 0.614),
            (0.392, 0.766),
            (0.32, 0.758),
            (0.244, 0.69),
        ]),
    )
    .compute_bounds();
    for i in 0..6 {
        let a = obstacle.points[i];
        let b = obstacle.points[i + 1];
        println!("i is {}", i);
        assert_eq!(
            intersection_length(a.x, a.y, b.x, b.y, &obstacle.points, &obstacle.bounds),
            0
        );
    }
    let a = obstacle.points[7];
    let b = obstacle.points[0];
    assert_eq!(
        intersection_length(a.x, a.y, b.x, b.y, &obstacle.points, &obstacle.bounds),
        0
    );
}

#[test]
fn exact_euclidean_distance() {
    assert_eq!(euclidean_distance(pt(0.0, 0.0), pt(3.0, 4.0)), 5 * SCALE);
    assert_eq!(euclidean_distance(pt(0.0, 0.0), pt(1.0, 1.0)), 14142);
    assert_eq!(euclidean_distance(pt(2.0, 2.0), pt(2.0, 2.0)), 0);
}

#[test]
fn exact_centroid_and_middle() {
    let g = centroid(pt(0.0, 0.0), pt(3.0, 0.0), pt(0.0, 3.0));
    assert_eq!(g, pt(1.0, 1.0));
    let m = middle(c(1.0), c(1.0), c(2.0), c(3.0));
    assert_eq!(m, pt(1.5, 2.0));
}

#[test]
fn fermat_point_never_loses_to_the_centroid() {
    let pa = pt(0.0, 0.0);
    let pb = pt(4.0, 0.0);
    let pc = pt(2.0, 3.0);
    let f = fermat_point(pa, pb, pc, 0);
    let g = centroid(pa, pb, pc);
    let star = |q: Point| {
        euclidean_distance(q, pa) + euclidean_distance(q, pb) + euclidean_distance(q, pc)
    };
    assert!(star(f) <= star(g));
    assert!(0 <= f.x && f.x <= c(4.0));
    assert!(0 <= f.y && f.y <= c(3.0));
}
