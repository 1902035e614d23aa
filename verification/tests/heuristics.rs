use hues::domain::{Bin, Spin, VarDomain, VarType};
use hues::heuristic::parallel_tempering::{
    best_run, end_status, greedy_descent, moves_considered, next_actions, seed_of_run, shuffle_by,
    shuffle_order, Actions, Ensemble, Schedule,
};
use hues::heuristic::rng::{base_seed, random_solution, Rng};
use hues::heuristic::run::{report, Outcome, Run};
use hues::heuristic::walk::{Incumbent, Walk};
use hues::heuristic::{greedy, pool, sa, saw, tabu, Signals, Status};
use hues::instance::HuboInstance;
use hues::solution::BitSolution;
use hues::term::Term;
use rand::SeedableRng;
use rand_xoshiro::Xoshiro256PlusPlus;
use std::time::{Duration, Instant};

fn build<V: VarDomain>(n: usize, terms: Vec<(Vec<usize>, i64)>) -> HuboInstance<V> {
    let terms = terms
        .into_iter()
        .map(|(indices, coeff)| Term { indices, coeff })
        .collect();
    HuboInstance::new(n, 0, terms)
}

fn linear<V: VarDomain>(n: usize) -> HuboInstance<V> {
    build(n, (0..n).map(|i| (vec![i], 1)).collect())
}

fn cutoff_instance() -> HuboInstance<Bin> {
    let mut terms: Vec<(Vec<usize>, i64)> = (0..100).map(|i| (vec![i], 1)).collect();
    terms.push((vec![0, 1], -50));
    build(100, terms)
}

fn chain(n: usize) -> HuboInstance<Bin> {
    build(n, (0..n - 1).map(|i| (vec![i, i + 1], 1)).collect())
}

fn quiet() -> Signals {
    Signals { interrupted: false, timed_out: false }
}

fn clock(start: Instant) -> Signals {
    Signals { interrupted: false, timed_out: start.elapsed() >= Duration::from_millis(10) }
}

#[test]
fn greedy_finds_optimum_bin() {
    let instance = linear::<Bin>(3);
    let config = greedy::Config { seed: 42, restarts: 3, ..Default::default() };
    let result = greedy::solve(&instance, &config);
    assert_eq!(result.objective, 0);
    assert_eq!(result.solution.to_vec(VarType::Bin), vec![0, 0, 0]);
}

#[test]
fn greedy_finds_optimum_spin() {
    let instance = linear::<Spin>(3);
    let config = greedy::Config { seed: 42, restarts: 3, ..Default::default() };
    assert_eq!(greedy::solve(&instance, &config).objective, -3);
}

#[test]
fn stops_at_local_minimum() {
    let instance = build::<Bin>(2, vec![(vec![0, 1], 1), (vec![0], -1), (vec![1], -1)]);
    let config = greedy::Config { seed: 0, restarts: 10, ..Default::default() };
    let result = greedy::solve(&instance, &config);
    assert!(result.objective <= 0);
    assert!(result.status == Status::Completed);
}

#[test]
fn greedy_cutoff() {
    let config =
        greedy::Config { seed: 42, cutoff: Some(0), restarts: 10, ..Default::default() };
    let result = greedy::solve(&cutoff_instance(), &config);
    assert!(result.status == Status::Cutoff);
    assert!(result.objective <= 0);
}

#[test]
fn greedy_time_limit() {
    let instance = chain(500);
    let config = greedy::Config { seed: 42, restarts: usize::MAX, ..Default::default() };
    let start = Instant::now();
    let mut run = greedy::start(&instance, &config);
    while !run.over {
        greedy::step(&mut run, &instance, &config, clock(start));
    }
    assert!(run.finish(&instance).status == Status::TimeLimit);
}

#[test]
fn greedy_that_starts_at_the_cutoff_makes_no_step() {
    let config = greedy::Config { seed: 1, cutoff: Some(0), restarts: 4, ..Default::default() };
    let result = greedy::solve(&build::<Bin>(0, vec![]), &config);
    assert!(result.status == Status::Cutoff);
    assert_eq!(result.iterations, 0);
    let run = greedy::start(&linear::<Bin>(5), &greedy::Config { cutoff: Some(5), ..config });
    assert!(run.over && run.status == Status::Cutoff);
    let run = greedy::start(&linear::<Bin>(5), &greedy::Config { cutoff: None, ..config });
    assert!(!run.over && run.status == Status::Completed);
}

#[test]
fn greedy_interrupt() {
    let instance = chain(5);
    let config = greedy::Config { seed: 42, ..Default::default() };
    let mut run = greedy::start(&instance, &config);
    let signals = Signals { interrupted: true, timed_out: true };
    assert!(!greedy::step(&mut run, &instance, &config, signals));
    let outcome = run.finish(&instance);
    assert!(outcome.status == Status::Interrupted);
    assert_eq!(outcome.status.as_str(), "interrupted");
}

#[test]
fn tabu_finds_optimum_bin() {
    let instance = linear::<Bin>(3);
    let config =
        tabu::Config { seed: 42, max_iterations: Some(1_000), restarts: 3, ..Default::default() };
    let result = tabu::solve(&instance, &config, None);
    assert_eq!(result.objective, 0);
    assert_eq!(result.solution.to_vec(VarType::Bin), vec![0, 0, 0]);
}

#[test]
fn tabu_finds_optimum_spin() {
    let instance = linear::<Spin>(3);
    let config =
        tabu::Config { seed: 42, max_iterations: Some(1_000), restarts: 3, ..Default::default() };
    assert_eq!(tabu::solve(&instance, &config, None).objective, -3);
}

#[test]
fn tabu_cutoff() {
    let instance = cutoff_instance();
    let config = tabu::Config { seed: 42, cutoff: Some(0), ..Default::default() };
    let mut search = tabu::Search::start(&instance, &config, None);
    while !search.run.over {
        search.step(&instance, &config, quiet());
    }
    let result = search.run.finish(&instance);
    assert!(result.status == Status::Cutoff);
    assert!(result.objective <= 0);
}

#[test]
fn tabu_time_limit() {
    let instance = chain(100);
    let config = tabu::Config { seed: 42, max_iterations: Some(u64::MAX), ..Default::default() };
    let start = Instant::now();
    let mut search = tabu::Search::start(&instance, &config, None);
    while !search.run.over {
        search.step(&instance, &config, clock(start));
    }
    assert!(search.run.finish(&instance).status == Status::TimeLimit);
}

#[test]
fn tabu_makes_all_its_iterations() {
    let instance = linear::<Spin>(6);
    let config =
        tabu::Config { seed: 3, max_iterations: Some(50), restarts: 4, ..Default::default() };
    let result = tabu::solve(&instance, &config, None);
    assert!(result.status == Status::Completed);
    assert_eq!(result.iterations, 200);
    let config = tabu::Config { cutoff: Some(6), ..config };
    let result = tabu::solve(&instance, &config, None);
    assert!(result.status == Status::Cutoff);
    assert_eq!(result.iterations, 0);
}

#[test]
fn tabu_respects_initial_solution() {
    let instance = build::<Bin>(2, vec![(vec![0], -1), (vec![1], -1)]);
    let config = tabu::Config { seed: 42, max_iterations: Some(100), ..Default::default() };
    assert_eq!(tabu::solve(&instance, &config, None).objective, -2);
    let config = tabu::Config { seed: 42, max_iterations: Some(0), ..Default::default() };
    let init = BitSolution::from_bool_vec(vec![true, false]);
    assert_eq!(tabu::solve(&instance, &config, Some(&init)).objective, -1);
}

#[test]
fn tabu_tenure_defaults_to_the_square_root() {
    assert_eq!(tabu::ceil_sqrt(0), 0);
    assert_eq!(tabu::ceil_sqrt(16), 4);
    assert_eq!(tabu::ceil_sqrt(17), 5);
}

#[test]
fn saw_finds_optimum_bin() {
    let instance = linear::<Bin>(3);
    let config = saw::Config {
        seed: 42,
        cutoff: None,
        n_walks: 5,
        max_steps: Some(500),
        local_search: true,
    };
    let result = saw::solve(&instance, &config);
    assert_eq!(result.objective, 0);
    assert_eq!(result.solution.to_vec(VarType::Bin), vec![0, 0, 0]);
}

#[test]
fn saw_finds_optimum_spin() {
    let instance = linear::<Spin>(3);
    let config = saw::Config {
        seed: 42,
        cutoff: None,
        n_walks: 5,
        max_steps: Some(500),
        local_search: true,
    };
    assert_eq!(saw::solve(&instance, &config).objective, -3);
}

#[test]
fn saw_cutoff() {
    let instance = cutoff_instance();
    let config = saw::Config {
        seed: 42,
        cutoff: Some(0),
        n_walks: 10,
        max_steps: None,
        local_search: true,
    };
    let mut search = saw::Search::start(&instance, &config);
    while !search.run.over {
        search.step(&instance, &config, quiet());
    }
    let result = search.run.finish(&instance);
    assert!(result.status == Status::Cutoff);
    assert!(result.objective <= 0);
}

#[test]
fn saw_time_limit() {
    let instance = chain(500);
    let config = saw::Config {
        seed: 42,
        cutoff: None,
        n_walks: usize::MAX,
        max_steps: None,
        local_search: false,
    };
    let start = Instant::now();
    let mut search = saw::Search::start(&instance, &config);
    while !search.run.over {
        search.step(&instance, &config, clock(start));
    }
    assert!(search.run.finish(&instance).status == Status::TimeLimit);
}

#[test]
fn segment_reset_continues_walk() {
    let instance = linear::<Bin>(4);
    let config = saw::Config {
        seed: 7,
        cutoff: None,
        n_walks: 1,
        max_steps: Some(20),
        local_search: false,
    };
    let result = saw::solve(&instance, &config);
    assert_eq!(result.iterations, 20);
    assert!(result.status == Status::Completed);
}

#[test]
fn pool_finds_optimum_bin() {
    let instance = linear::<Bin>(3);
    let config = pool::Config { seed: 42, max_iterations: Some(500), ..Default::default() };
    assert_eq!(pool::solve(&instance, &config).objective, 0);
}

#[test]
fn pool_finds_optimum_spin() {
    let instance = linear::<Spin>(3);
    let config = pool::Config { seed: 42, max_iterations: Some(500), ..Default::default() };
    assert_eq!(pool::solve(&instance, &config).objective, -3);
}

#[test]
fn pool_cutoff() {
    let instance = linear::<Bin>(60);
    let config = pool::Config {
        seed: 7,
        cutoff: Some(60),
        max_iterations: Some(1000),
        ..Default::default()
    };
    let result = pool::solve(&instance, &config);
    assert!(result.status == Status::Cutoff);
    assert_eq!(result.iterations, 0);
}

#[test]
fn pool_makes_all_its_iterations() {
    let config = pool::Config { seed: 42, max_iterations: Some(500), ..Default::default() };
    let result = pool::solve(&linear::<Bin>(5), &config);
    assert!(result.status == Status::Completed);
    assert_eq!(result.iterations, 500);
    assert_eq!(result.objective, result.solution.evaluate(&linear::<Bin>(5)));
}

#[test]
fn pool_members_differ() {
    let a = BitSolution::from_bool_vec(vec![true, false, true]);
    let b = BitSolution::from_bool_vec(vec![false, false, true]);
    assert_eq!(pool::hamming_distance(&a, &b, 3), 1);
    let mut members = Vec::new();
    for (obj, sol) in [(5, a.clone()), (5, a.clone()), (3, b.clone()), (9, b.clone())] {
        pool::try_insert_into_pool(&mut members, 4, pool::Candidate { obj, sol }, 3);
    }
    assert_eq!(members.len(), 2);
    assert_eq!(pool::pairwise_hamming(&members, 3), (1, 1));
}

fn anneal<V: VarDomain>(
    instance: &HuboInstance<V>,
    seed: u64,
    restarts: usize,
    cutoff: Option<i64>,
    signals: &dyn Fn() -> Signals,
) -> Outcome {
    let mut run = Run::start(instance, seed, restarts, cutoff, None);
    let attempts = sa::attempts_per_level(None, instance.n_vars());
    let mut temp: f64 = 10.0;
    while !run.over {
        let complete = temp <= 1e-6;
        if !sa::begin_level(&mut run, instance, signals(), complete) {
            temp = 10.0;
            continue;
        }
        for _ in 0..attempts {
            let Some((v, delta)) = sa::propose(&mut run, instance, signals()) else {
                break;
            };
            let accepted = delta <= 0 || {
                let u = run.rng.uniform_bits() as f64 / (1u64 << 53) as f64;
                u < (-(delta as f64) / temp).exp()
            };
            if !sa::settle(&mut run, instance, v, accepted) {
                break;
            }
        }
        temp *= 0.9995;
    }
    run.finish(instance)
}

#[test]
fn sa_finds_optimum_bin() {
    let instance = linear::<Bin>(3);
    let result = anneal(&instance, 42, 5, None, &quiet);
    assert_eq!(result.objective, 0);
    assert_eq!(result.solution.to_vec(VarType::Bin), vec![0, 0, 0]);
}

#[test]
fn sa_finds_optimum_spin() {
    let instance = linear::<Spin>(3);
    assert_eq!(anneal(&instance, 42, 5, None, &quiet).objective, -3);
}

#[test]
fn sa_respects_initial_solution() {
    let instance = build::<Bin>(2, vec![(vec![0], -1), (vec![1], -1)]);
    assert_eq!(anneal(&instance, 42, 10, None, &quiet).objective, -2);
}

#[test]
fn sa_time_limit() {
    let instance = chain(100);
    let start = Instant::now();
    let result = anneal(&instance, 42, 10, None, &|| clock(start));
    assert!(result.status == Status::TimeLimit);
}

#[test]
fn sa_cutoff() {
    let result = anneal(&cutoff_instance(), 42, 10, Some(0), &quiet);
    assert!(result.status == Status::Cutoff);
    assert!(result.objective <= 0);
}

fn frustrated_triangle(j: i64) -> HuboInstance<Spin> {
    build(3, vec![(vec![0, 1], j), (vec![1, 2], j), (vec![0, 2], j)])
}

#[test]
fn test_energy_and_fields() {
    let inst = frustrated_triangle(1);
    let sigma = BitSolution::from_vec(&[1, 1, -1]);
    assert_eq!(sigma.evaluate(&inst), -1);
    let h = sigma.local_fields(&inst);
    assert_eq!(h, vec![0, 0, 2]);
}

#[test]
fn test_flip_incremental_vs_full() {
    let inst = frustrated_triangle(5);
    let sigma = BitSolution::from_vec(&[1, -1, 1]);
    let mut state = Walk::from_solution(&inst, sigma);
    state.flip(&inst, 1);
    assert_eq!(state.obj, state.sol.evaluate(&inst));
    let full_ts = inst.init_term_state(&state.sol);
    let full_dc = inst.init_delta_cache(&state.sol, &full_ts);
    for j in 0..inst.n_vars() {
        assert_eq!(state.delta_cache.deltas[j], full_dc.deltas[j], "delta[{j}] mismatch");
    }
}

#[test]
fn test_greedy_descent_reaches_local_min() {
    let inst = frustrated_triangle(1);
    let mut state = Walk::from_solution(&inst, BitSolution::from_vec(&[1, 1, 1]));
    greedy_descent(&mut state, &inst, 8);
    for j in 0..inst.n_vars() {
        assert!(state.delta(&inst, j) >= 0, "variable {j} is still improvable");
    }
}

#[test]
fn test_pt_finds_ground_state() {
    let inst = frustrated_triangle(1);
    let mut energies = Vec::new();
    for id in 0..4u64 {
        let mut rng = Xoshiro256PlusPlus::seed_from_u64(seed_of_run(0, id));
        let mut draws = Rng::new(id);
        let replicas: Vec<Walk> = (0..8)
            .map(|_| Walk::from_solution(&inst, random_solution(3, &mut draws)))
            .collect();
        let mut ensemble = Ensemble::start(&inst, replicas, 4);
        for _ in 0..50 {
            for replica in 0..8 {
                let beta = 20.0 / (1.0 + replica as f64);
                let mut order = vec![0, 1, 2];
                shuffle_order(&mut order, &mut rng);
                for v in order {
                    let delta = ensemble.replicas[replica].delta(&inst, v);
                    let u = draws.uniform_bits() as f64 / (1u64 << 53) as f64;
                    let accepted = delta <= 0 || u < (-(delta as f64) * beta).exp();
                    ensemble.settle(&inst, replica, v, accepted);
                }
                ensemble.note_replica(&inst, replica);
            }
            let mut p = ensemble.begin_exchange();
            while p + 1 < 8 {
                let better = ensemble.replicas[p + 1].obj < ensemble.replicas[p].obj;
                ensemble.exchange(&inst, p, better, true, 4);
                p += 2;
            }
        }
        energies.push(ensemble.incumbent.obj);
    }
    assert!(energies[best_run(&energies)] <= -1);
}

#[test]
fn schedule_of_a_tempering_run() {
    let schedule =
        Schedule { n_sweeps: 6, swap_interval: 2, adapt_interval: 3, cutoff: Some(-5) };
    let incumbent = Incumbent { obj: 4, sol: None };
    let actions: Vec<Actions> =
        (0..6).filter_map(|done| next_actions(&schedule, done, &incumbent, quiet())).collect();
    let exchanges: Vec<bool> = actions.iter().map(|a| a.exchange).collect();
    let adaptions: Vec<bool> = actions.iter().map(|a| a.adapt).collect();
    assert_eq!(exchanges, vec![false, true, false, true, false, true]);
    assert_eq!(adaptions, vec![false, false, true, false, false, true]);
    assert!(next_actions(&schedule, 6, &incumbent, quiet()).is_none());
    let stop = Signals { interrupted: false, timed_out: true };
    assert!(next_actions(&schedule, 0, &incumbent, stop).is_none());
    assert!(next_actions(&schedule, 0, &Incumbent { obj: -5, sol: None }, quiet()).is_none());
    let never = Schedule { adapt_interval: 0, ..schedule };
    assert!((0..6).all(|d| !next_actions(&never, d, &incumbent, quiet()).unwrap().adapt));
}

#[test]
fn end_of_tempering() {
    let both = Signals { interrupted: true, timed_out: true };
    let late = Signals { interrupted: false, timed_out: true };
    assert!(end_status(both, Some(3), 3) == Status::Interrupted);
    assert!(end_status(late, Some(3), 3) == Status::Cutoff);
    assert!(end_status(late, Some(3), 4) == Status::TimeLimit);
    assert!(end_status(quiet(), None, 4) == Status::Completed);
    assert_eq!(moves_considered(2, 3, 5, 7), 210);
    assert_eq!(moves_considered(usize::MAX, 3, 5, 7), u64::MAX);
    assert_eq!(moves_considered(usize::MAX, usize::MAX, usize::MAX, 0), 0);
}

#[test]
fn reported_objective_is_that_of_the_solution() {
    let inst = frustrated_triangle(2);
    let replicas = vec![
        Walk::from_solution(&inst, BitSolution::from_vec(&[1, 1, 1])),
        Walk::from_solution(&inst, BitSolution::from_vec(&[1, -1, 1])),
    ];
    let ensemble = Ensemble::start(&inst, replicas, 4);
    let outcome = ensemble.finish(&inst, Status::Completed, 12);
    assert!(outcome.status == Status::Completed);
    assert_eq!(outcome.iterations, 12);
    assert_eq!(outcome.objective, -2);
    assert_eq!(outcome.solution.evaluate(&inst), -2);
    let sol = BitSolution::from_vec(&[1, 1, 1]);
    let best = Incumbent { obj: 6, sol: Some(sol) };
    assert_eq!(report(&inst, best, Status::Cutoff, 0).objective, 6);
}

#[test]
fn test_swap_acceptance_formula() {
    let beta_cold = 2.0f64;
    let beta_hot = 0.5f64;
    let e_cold = 3.0f64;
    let e_hot = 1.0f64;
    let log_acc = (beta_cold - beta_hot) * (e_cold - e_hot);
    assert!(log_acc > 0.0, "should always accept when cold is worse");
}

#[test]
fn shuffling_keeps_the_variables() {
    let mut rng = Xoshiro256PlusPlus::seed_from_u64(3);
    let mut order: Vec<usize> = (0..40).collect();
    let mut moved = false;
    for _ in 0..20 {
        shuffle_order(&mut order, &mut rng);
        moved = moved || order != (0..40).collect::<Vec<usize>>();
        let mut sorted = order.clone();
        sorted.sort();
        assert_eq!(sorted, (0..40).collect::<Vec<usize>>());
    }
    assert!(moved);
}

#[test]
fn shuffle_exchanges_each_place_with_its_pick() {
    let mut order = vec![0, 1, 2, 3];
    shuffle_by(&mut order, &vec![1, 2, 0]);
    assert_eq!(order, vec![3, 0, 2, 1]);
    let mut single = vec![7];
    shuffle_by(&mut single, &vec![]);
    assert_eq!(single, vec![7]);
}

#[test]
fn shuffle_takes_its_picks_from_the_generator() {
    let mut rng = Xoshiro256PlusPlus::seed_from_u64(11);
    let mut drawn = rng.clone();
    let mut order: Vec<usize> = (0..9).collect();
    let mut expected = order.clone();
    shuffle_order(&mut order, &mut rng);
    let picks: Vec<usize> =
        (1..9).rev().map(|i| rand::Rng::random_range(&mut drawn, 0..=i)).collect();
    shuffle_by(&mut expected, &picks);
    assert_eq!(order, expected);
    assert_eq!(rng, drawn);
    let mut empty: Vec<usize> = Vec::new();
    shuffle_order(&mut empty, &mut rng);
    assert!(empty.is_empty());
    assert_eq!(rng, drawn);
}

#[test]
fn generator_is_determined_by_its_seed() {
    let mut a = Rng::new(42);
    let mut b = Rng::new(42);
    let mut c = Rng::new(43);
    let first: Vec<u64> = (0..5).map(|_| a.next_u64()).collect();
    let same: Vec<u64> = (0..5).map(|_| b.next_u64()).collect();
    let other: Vec<u64> = (0..5).map(|_| c.next_u64()).collect();
    assert_eq!(first, same);
    assert_ne!(first, other);
    assert_eq!(Rng::new(0).next_u64(), 6652065884787806945);
    assert_eq!(a.index(0), 0);
    assert!((0..100).all(|_| a.index(7) < 7));
    assert!(a.uniform_bits() < 1u64 << 53);
    assert_eq!(base_seed(Some(5), 77), 5);
    assert_eq!(base_seed(None, 77), 77);
}
