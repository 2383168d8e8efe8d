use ordered_float::OrderedFloat;
use rand::rngs::StdRng;
use rand::{Rng, SeedableRng};
use rustplanning::planning::rrt::rrt;
use rustplanning::tree::{Distance, Tree};
use std::cell::RefCell;
use std::time::Duration;

/// Distances between points are counted in millionths of a unit.
const SCALE: f64 = 1_000_000.0;

/// Basic 2D point class for representing hashable points in the plane
#[derive(Debug, PartialEq, Eq, PartialOrd, Ord, Hash, Clone, Copy)]
struct Point2D(OrderedFloat<f64>, OrderedFloat<f64>);

impl Point2D {
    pub fn new(x: f64, y: f64) -> Self {
        Point2D(OrderedFloat(x), OrderedFloat(y))
    }

    pub fn x(&self) -> f64 {
        self.0.into_inner()
    }

    pub fn y(&self) -> f64 {
        self.1.into_inner()
    }

    fn euclid(&self, other: &Point2D) -> f64 {
        let (dx, dy) = (self.x() - other.x(), self.y() - other.y());
        (dx * dx + dy * dy).sqrt()
    }
}

// Norm distance function for 2D points
impl Distance for Point2D {
    fn distance(&self, other: &Point2D) -> u64 {
        (self.euclid(other) * SCALE).round() as u64
    }
}

/// Function for randomly sampling the 2-D plane
fn sample_2d(rng: &mut StdRng, max_x: f64, max_y: f64) -> Point2D {
    Point2D::new(rng.gen_range(0.0..=max_x), rng.gen_range(0.0..=max_y))
}

// Returns a point that is step_size along the line between the specified start and end pose
fn extend_2d(start: &Point2D, end: &Point2D, step_size: f64) -> Point2D {
    let direction = (end.0 - start.0, end.1 - start.1);
    let length = (direction.0.powi(2) + direction.1.powi(2)).sqrt();
    let norm_direction = (direction.0 / length, direction.1 / length);
    Point2D(
        start.0 + norm_direction.0 * step_size,
        start.1 + norm_direction.1 * step_size,
    )
}

fn plan_2d(
    use_rrtstar: bool,
    start: &Point2D,
    goal: &Point2D,
    grid_size: f64,
    max_iterations: u64,
    fast_return: bool,
) -> Result<(Vec<Point2D>, Tree<Point2D>), rustplanning::planning::rrt::PlanError> {
    // Seed the generator for consistency
    let rng = RefCell::new(StdRng::seed_from_u64(1));
    let step_size = 1.0;

    // Define closures
    let obstacle = Point2D::new(grid_size / 2.0, grid_size / 2.0); // All points except for ball in the center are valid
    let extend_fn = |start: &Point2D, end: &Point2D| extend_2d(start, end, step_size);
    let sample_fn = || sample_2d(&mut rng.borrow_mut(), grid_size, grid_size);
    let connectable_fn =
        |start: &Point2D, end: &Point2D| end.euclid(&obstacle) > 3.0 && start.euclid(end) < step_size;

    rrt(
        start,
        goal,
        sample_fn,
        extend_fn,
        connectable_fn,
        use_rrtstar,
        (2.0 * SCALE) as u64,
        false,
        max_iterations,
        Duration::from_secs(15),
        fast_return,
    )
}

fn run_rrt(use_rrtstar: bool, start: &Point2D, goal: &Point2D, grid_size: f64) {
    let result = plan_2d(use_rrtstar, start, goal, grid_size, 100000, true);

    assert!(result.is_ok(), "Expected Ok result, got Err");

    let (path, _) = result.unwrap();
    assert!(!path.is_empty(), "Path should not be empty");
    assert_eq!(path[0], *start, "Path should start at the start point");

    // Verify it ends at the goal
    let end = path.last().unwrap();
    assert!(end.euclid(goal) < f64::EPSILON, "Path should end at the goal");
}

#[test]
fn test_rrt() {
    let start = Point2D::new(1.0, 1.0);
    let end = Point2D::new(10.0, 10.0);
    let grid_size = 10.0;
    run_rrt(false, &start, &end, grid_size);
}

#[test]
fn test_rrtstar() {
    let start = Point2D::new(1.0, 1.0);
    let end = Point2D::new(10.0, 10.0);
    let grid_size = 10.0;
    run_rrt(true, &start, &end, grid_size);
}

#[test]
fn rrtstar_goal_cost_not_above_rrt() {
    let start = Point2D::new(1.0, 1.0);
    let goal = Point2D::new(10.0, 10.0);
    let (_, plain) = plan_2d(false, &start, &goal, 10.0, 3000, false).unwrap();
    let (path, star) = plan_2d(true, &start, &goal, 10.0, 3000, false).unwrap();
    assert_eq!(path[0], start);
    assert!(star.cost(&goal).unwrap() <= plain.cost(&goal).unwrap());
}
