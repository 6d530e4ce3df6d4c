use std::collections::HashSet;
use rand::Rng;
use rand::SeedableRng;
use stobga::geom::Point;
use stobga::isect::intersection_length;
use stobga::problem::{Obstacle, SteinerProblem};
use stobga::chromosome::{Chromosome, Individual};
use stobga::engine::{StOBGA, BufferSelector, Convergence, LoopState, is_improvement_by_factor};
use stobga::rng::{rng_from_seed, rng_range_i64, rng_index, rng_sample, rng_shuffle};
use stobga::{SCALE, INF_COST};

fn p(x: i64, y: i64) -> Point {
    Point { x: x * SCALE, y: y * SCALE }
}

fn simple_problem(terminals: Vec<Point>, obstacles: Vec<Obstacle>) -> SteinerProblem {
    SteinerProblem::new(terminals, obstacles, vec![])
}

#[test]
fn seeding_actually_makes_rand_reproducable() {
    let mut rng = rand_pcg::Pcg32::seed_from_u64(0);
    assert_eq!(rng.gen::<u64>(), 18195738587432868099);
    let mut rng1 = rand_pcg::Pcg32::seed_from_u64(0);
    assert_eq!(rng1.gen::<u64>(), 18195738587432868099);
}

#[test]
fn two_terminals_single_edge() {
    let problem = simple_problem(vec![p(0, 0), p(1, 1)], vec![]);
    let mut engine = StOBGA::new(rng_from_seed(0), problem, 1, 1, 0, 0);
    engine.build_msts();
    let mst = engine.population[0].minimum_spanning_tree.as_ref().unwrap();
    assert_eq!(mst.edges.len(), 1);
    assert_eq!(mst.total_weight, 14142);
    engine.finalize();
    let mst2 = engine.population[0].minimum_spanning_tree.as_ref().unwrap();
    assert_eq!(mst2.total_weight, 14142);
    assert_eq!(mst2.edges.len(), 1);
}

#[test]
fn blocked_segment_costs_the_sentinel() {
    let triangle = Obstacle::new(
        INF_COST,
        vec![p(0, 0), p(4, 0), p(0, 4)],
    )
    .compute_bounds();
    let a = p(-1, 1);
    let b = p(3, 1);
    assert!(
        intersection_length(a.x, a.y, b.x, b.y, &triangle.points, &triangle.bounds) > 0
    );
    let problem = simple_problem(vec![a, b], vec![triangle]);
    assert_eq!(problem.distance(a, b), INF_COST);
}

#[test]
fn clear_segment_costs_euclidean() {
    let far_block = Obstacle::new(
        INF_COST,
        vec![p(10, 10), p(12, 10), p(10, 12)],
    )
    .compute_bounds();
    let problem = simple_problem(vec![p(0, 0), p(1, 1)], vec![far_block]);
    assert_eq!(problem.distance(p(0, 0), p(1, 1)), 14142);
    assert_eq!(problem.distance(p(1, 1), p(0, 0)), 14142);
}

#[test]
fn weighted_obstacle_scales_interior_length() {
    let square = Obstacle::new(
        3 * SCALE,
        vec![p(1, -1), p(2, -1), p(2, 1), p(1, 1)],
    )
    .compute_bounds();
    let problem = simple_problem(vec![p(0, 0), p(3, 0)], vec![square]);
    let d = problem.distance(p(0, 0), p(3, 0));
    assert_eq!(d, 3 * SCALE + 2 * SCALE);
}

#[test]
fn generation_keeps_population_size() {
    let problem = simple_problem(vec![p(0, 0), p(4, 0), p(2, 3)], vec![]);
    let mut engine = StOBGA::new(rng_from_seed(7), problem, 12, 1, 6, 5);
    assert_eq!(engine.population.len(), 12);
    engine.step();
    assert_eq!(engine.population.len(), 12);
    assert_eq!(engine.child_buffer.len(), 0);
    assert_eq!(engine.current_generation, 1);
    let f0 = engine.population[0].minimum_spanning_tree.as_ref().unwrap().total_weight;
    let f1 = engine.population[1].minimum_spanning_tree.as_ref().unwrap().total_weight;
    assert!(f0 <= f1);
    engine.step();
    assert_eq!(engine.population.len(), 12);
    assert_eq!(engine.child_buffer.len(), 0);
    assert_eq!(engine.current_generation, 2);
}

#[test]
fn crossover_preserves_gene_union() {
    let problem = simple_problem(vec![p(-3, 0), p(3, 0)], vec![]);
    let parent1 = Individual {
        chromosome: Chromosome {
            steiner_points: vec![p(-2, 1), p(-1, 1)],
            included_corners: vec![],
        },
        minimum_spanning_tree: None,
    };
    let parent2 = Individual {
        chromosome: Chromosome {
            steiner_points: vec![p(1, 1), p(2, 1)],
            included_corners: vec![],
        },
        minimum_spanning_tree: None,
    };
    let mut engine = StOBGA {
        problem,
        population: vec![parent1, parent2],
        random_generator: rng_from_seed(3),
        current_generation: 0,
        child_buffer: vec![],
        function_evaluations: 0,
        edge_db: std::collections::HashMap::new(),
        population_size: 2,
    };
    engine.crossover(0, 1);
    assert_eq!(engine.child_buffer.len(), 2);
    let collect = |ind: &Individual| -> HashSet<(i64, i64)> {
        ind.chromosome.steiner_points.iter().map(|q| (q.x, q.y)).collect()
    };
    let c1 = collect(&engine.child_buffer[0]);
    let c2 = collect(&engine.child_buffer[1]);
    let mut union: HashSet<(i64, i64)> = c1.union(&c2).cloned().collect();
    let parents: HashSet<(i64, i64)> =
        [p(-2, 1), p(-1, 1), p(1, 1), p(2, 1)].iter().map(|q| (q.x, q.y)).collect();
    assert_eq!(union, parents);
    assert!(c1.is_disjoint(&c2));
    union.clear();
    assert!(union.is_empty());
}

#[test]
fn remove_steiner_spares_branch_points() {
    let problem = simple_problem(vec![p(0, 2), p(-2, -1), p(2, -1)], vec![]);
    let junction = Individual {
        chromosome: Chromosome {
            steiner_points: vec![p(0, 0)],
            included_corners: vec![],
        },
        minimum_spanning_tree: None,
    };
    let mut engine = StOBGA {
        problem,
        population: vec![],
        random_generator: rng_from_seed(5),
        current_generation: 0,
        child_buffer: vec![junction],
        function_evaluations: 0,
        edge_db: std::collections::HashMap::new(),
        population_size: 1,
    };
    engine.build_mst(0, BufferSelector::ChildBuffer);
    let mst = engine.child_buffer[0].minimum_spanning_tree.as_ref().unwrap();
    assert_eq!(mst.degree(0), 3);
    for _ in 0..10 {
        engine.mutate_remove_steiner(0);
        assert_eq!(engine.child_buffer[0].chromosome.steiner_points.len(), 1);
        assert_eq!(engine.child_buffer[0].chromosome.steiner_points[0], p(0, 0));
    }
}

#[test]
fn add_steiner_avoids_solid_obstacles() {
    let block = Obstacle::new(
        INF_COST,
        vec![p(-1, -1), p(1, -1), p(1, 1), p(-1, 1)],
    )
    .compute_bounds();
    let problem = simple_problem(vec![p(-3, -3), p(3, 3), p(-3, 3), p(3, -3)], vec![block]);
    let child = Individual {
        chromosome: Chromosome { steiner_points: vec![], included_corners: vec![] },
        minimum_spanning_tree: None,
    };
    let mut engine = StOBGA {
        problem,
        population: vec![],
        random_generator: rng_from_seed(11),
        current_generation: 0,
        child_buffer: vec![child],
        function_evaluations: 0,
        edge_db: std::collections::HashMap::new(),
        population_size: 1,
    };
    for _ in 0..15 {
        engine.mutate_add_steiner(0);
        let sp = engine.child_buffer[0].chromosome.steiner_points.clone();
        for q in sp {
            assert!(!engine.problem.coordinates_in_solid_obstacle(q));
        }
    }
}

#[test]
fn crossover_splits_corner_genes_too() {
    let o1 = Obstacle::new(2 * SCALE, vec![p(-2, 4), p(-1, 4), p(-2, 5)]).compute_bounds();
    let o2 = Obstacle::new(2 * SCALE, vec![p(1, 4), p(2, 4), p(2, 5)]).compute_bounds();
    let problem = SteinerProblem::new(vec![p(-3, 0), p(3, 0)], vec![o1, o2], vec![]);
    let parent1 = Individual {
        chromosome: Chromosome { steiner_points: vec![], included_corners: vec![0, 1, 2] },
        minimum_spanning_tree: None,
    };
    let parent2 = Individual {
        chromosome: Chromosome { steiner_points: vec![], included_corners: vec![3, 4, 5] },
        minimum_spanning_tree: None,
    };
    let mut engine = StOBGA {
        problem,
        population: vec![parent1, parent2],
        random_generator: rng_from_seed(13),
        current_generation: 0,
        child_buffer: vec![],
        function_evaluations: 0,
        edge_db: std::collections::HashMap::new(),
        population_size: 2,
    };
    engine.crossover(0, 1);
    let c1: HashSet<usize> =
        engine.child_buffer[0].chromosome.included_corners.iter().cloned().collect();
    let c2: HashSet<usize> =
        engine.child_buffer[1].chromosome.included_corners.iter().cloned().collect();
    let union: HashSet<usize> = c1.union(&c2).cloned().collect();
    let all: HashSet<usize> = (0..6).collect();
    assert_eq!(union, all);
    assert!(c1.is_disjoint(&c2));
}

#[test]
fn chromosome_sets_have_set_semantics() {
    let mut ch = Chromosome::new();
    assert!(ch.steiner_insert(p(1, 1)));
    assert!(!ch.steiner_insert(p(1, 1)));
    assert!(ch.steiner_insert(p(2, 2)));
    assert_eq!(ch.steiner_points.len(), 2);
    assert!(ch.steiner_remove(p(1, 1)));
    assert!(!ch.steiner_remove(p(1, 1)));
    assert_eq!(ch.steiner_points, vec![p(2, 2)]);
    assert!(ch.corner_insert(4));
    assert!(ch.corner_insert(1));
    assert!(!ch.corner_insert(4));
    assert_eq!(ch.included_corners, vec![1, 4]);
    assert!(ch.corner_remove(1));
    assert!(!ch.corner_remove(1));
    assert_eq!(ch.included_corners, vec![4]);
}

#[test]
fn corners_flatten_in_obstacle_then_vertex_order() {
    let o1 = Obstacle::new(2 * SCALE, vec![p(0, 0), p(1, 0), p(0, 1)]).compute_bounds();
    let o2 = Obstacle::new(2 * SCALE, vec![p(5, 5), p(6, 5), p(5, 6)]).compute_bounds();
    let problem = simple_problem(vec![p(-1, -1), p(7, 7)], vec![o1, o2]);
    let expected = vec![p(0, 0), p(1, 0), p(0, 1), p(5, 5), p(6, 5), p(5, 6)];
    assert_eq!(problem.obstacle_corners, expected);
}

#[test]
fn average_terminal_distance_is_the_pair_mean() {
    let problem = simple_problem(vec![p(0, 0), p(3, 4)], vec![]);
    assert_eq!(problem.average_terminal_distance, 5 * SCALE);
}

#[test]
fn convergence_counts_stagnation() {
    let mut conv = Convergence::new(3);
    assert!(conv.update(1000));
    assert_eq!(conv.streak_length, 0);
    assert!(!conv.update(1000));
    assert_eq!(conv.streak_length, 1);
    assert!(!conv.update(1000));
    assert!(!conv.update(1000));
    assert!(matches!(conv.state, LoopState::LastGeneration));
    assert!(conv.update(1000));
    assert!(is_improvement_by_factor(10_000_000, 9_000_000, 100));
    assert!(!is_improvement_by_factor(10_000_000, 10_000_000, 100));
    assert!(!is_improvement_by_factor(10_000_000, 9_999_999, 100));
}

#[test]
fn ranged_draws_stay_in_range() {
    let mut rng = rng_from_seed(42);
    for _ in 0..100 {
        let v = rng_range_i64(&mut rng, -50, 50);
        assert!(-50 <= v && v < 50);
        let i = rng_index(&mut rng, 7);
        assert!(i < 7);
    }
}

#[test]
fn sampling_gives_distinct_indices() {
    let mut rng = rng_from_seed(9);
    let s = rng_sample(&mut rng, 10, 5);
    assert_eq!(s.len(), 5);
    let set: HashSet<usize> = s.iter().cloned().collect();
    assert_eq!(set.len(), 5);
    assert!(s.iter().all(|&v| v < 10));
}

#[test]
fn shuffling_keeps_the_elements() {
    let mut rng = rng_from_seed(1);
    let mut v: Vec<usize> = (0..20).collect();
    rng_shuffle(&mut rng, &mut v);
    let mut sorted = v.clone();
    sorted.sort();
    let expected: Vec<usize> = (0..20).collect();
    assert_eq!(sorted, expected);
}

#[test]
fn flip_move_keeps_the_tree_fresh() {
    let problem = simple_problem(vec![p(0, 0), p(4, 4)], vec![]);
    let child = Individual {
        chromosome: Chromosome {
            steiner_points: vec![p(1, 1), p(2, 2)],
            included_corners: vec![],
        },
        minimum_spanning_tree: None,
    };
    let mut engine = StOBGA {
        problem,
        population: vec![],
        random_generator: rng_from_seed(2),
        current_generation: 0,
        child_buffer: vec![child],
        function_evaluations: 0,
        edge_db: std::collections::HashMap::new(),
        population_size: 1,
    };
    engine.mutate_flip_move(0);
    assert!(engine.child_buffer[0].minimum_spanning_tree.is_some());
}

#[test]
fn remove_steiner_takes_a_pass_through_point() {
    let problem = simple_problem(vec![p(0, 0), p(4, 0)], vec![]);
    let child = Individual {
        chromosome: Chromosome { steiner_points: vec![p(2, 0)], included_corners: vec![] },
        minimum_spanning_tree: None,
    };
    let mut engine = StOBGA {
        problem,
        population: vec![],
        random_generator: rng_from_seed(21),
        current_generation: 0,
        child_buffer: vec![child],
        function_evaluations: 0,
        edge_db: std::collections::HashMap::new(),
        population_size: 1,
    };
    engine.mutate_remove_steiner(0);
    assert!(engine.child_buffer[0].chromosome.steiner_points.is_empty());
    assert!(engine.function_evaluations >= 1);
}
