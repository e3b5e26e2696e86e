use krpsim::aco::{
    build_wheel, construct_solution, evaluate_objective, evaluate_solution, select_next_process,
    spin, Ant, MAX_STEPS, STALL_LIMIT,
};
use krpsim::annealing::{apply_process, feasible_processes, random_neighbor};
use krpsim::budget::Budget;
use krpsim::genetic::{
    crossover, evaluate_fitness, evolve, fitness_of, fittest, fittest_run, mutate,
    select_survivors, simulate, simulate_and_log, Solution,
};
use krpsim::model::{Data, Process};
use krpsim::replay::{check_execution, Execution};
use krpsim::run::Run;
use krpsim::search::{calculate_heuristic, improves, pop_least, successors, was_seen, Node};
use krpsim::stock_scores::{count_inputs, precompute_stock_scores};
use krpsim::stocks::Stocks;
use std::sync::atomic::AtomicBool;
use std::sync::Arc;

fn s(t: &str) -> String {
    t.to_string()
}

fn qs(items: &[(&str, u64)]) -> Vec<(String, u64)> {
    items.iter().map(|(k, q)| (k.to_string(), *q)).collect()
}

fn pr(id: &str, input: &[(&str, u64)], output: &[(&str, u64)], time: u64) -> Process {
    Process { id: s(id), input: qs(input), output: qs(output), time }
}

fn st(items: &[(&str, u64)]) -> Stocks {
    let mut m = Stocks::new();
    for (k, q) in items {
        m.set(k.to_string(), *q);
    }
    m
}

fn shop() -> Data {
    Data {
        stocks: st(&[("euro", 10)]),
        processes: vec![pr("buy_apple", &[("euro", 2)], &[("apple", 1)], 1)],
        objectives: vec![s("apple")],
    }
}

fn no_gold() -> Data {
    Data {
        stocks: st(&[("euro", 10)]),
        processes: vec![pr("buy_apple", &[("euro", 2)], &[("apple", 1)], 1)],
        objectives: vec![s("gold")],
    }
}

fn chain() -> Data {
    Data {
        stocks: st(&[("a", 4), ("b", 0), ("c", 0), ("d", 1)]),
        processes: vec![
            pr("first", &[("a", 1)], &[("b", 1)], 2),
            pr("second", &[("b", 1)], &[("c", 1)], 3),
            pr("idle", &[("d", 1)], &[("e", 1)], 1),
        ],
        objectives: vec![s("c")],
    }
}

fn polls(n: u64) -> Budget {
    Budget::new(Arc::new(AtomicBool::new(false)), n)
}

fn spent() -> Budget {
    Budget::until_raised(Arc::new(AtomicBool::new(true)))
}

fn lines(log: &Vec<(String, u64, u64)>) -> Vec<Execution> {
    let mut out = Vec::new();
    for (id, count, start) in log {
        for _ in 0..*count {
            out.push(Execution { time: *start, process_name: id.clone() });
        }
    }
    out
}

fn total_of(log: &Vec<(String, u64, u64)>, id: &str) -> u64 {
    log.iter().filter(|r| r.0 == id).map(|r| r.1).sum()
}

#[test]
fn scores_fall_by_one_for_each_process_between() {
    let d = chain();
    let scores = precompute_stock_scores(&d);
    assert_eq!(scores.len(), 3);
    assert_eq!(scores.get(&s("c")), 4);
    assert_eq!(scores.get(&s("b")), 3);
    assert_eq!(scores.get(&s("a")), 2);
    assert!(!scores.contains(&s("d")));
    assert!(!scores.contains(&s("e")));
    assert_eq!(count_inputs(&d.processes), 3);
    assert_eq!(calculate_heuristic(&d.objectives, &scores), 4);
}

#[test]
fn scores_take_the_nearest_objective_and_stop_at_zero() {
    let d = Data {
        stocks: st(&[("x", 1)]),
        processes: vec![
            pr("p", &[("far", 1)], &[("mid", 1)], 1),
            pr("q", &[("mid", 1), ("goal", 1)], &[("goal", 1)], 1),
            pr("r", &[("farther", 1)], &[("far", 1)], 1),
            pr("t", &[("far", 1)], &[("goal", 1)], 1),
        ],
        objectives: vec![s("goal"), s("goal")],
    };
    let scores = precompute_stock_scores(&d);
    assert_eq!(scores.get(&s("goal")), 1);
    assert_eq!(scores.get(&s("mid")), 0);
    assert_eq!(scores.get(&s("far")), 0);
    assert!(scores.contains(&s("farther")));
    assert_eq!(scores.get(&s("farther")), 0);
    assert!(!scores.contains(&s("x")));
}

#[test]
fn scores_of_a_problem_without_objectives_are_empty() {
    let mut d = chain();
    d.objectives = vec![];
    assert_eq!(precompute_stock_scores(&d).len(), 0);
}

#[test]
fn successors_are_every_count_of_every_process() {
    let d = Data {
        stocks: st(&[("a", 3), ("b", 1)]),
        processes: vec![
            pr("p", &[("a", 1)], &[("c", 1)], 2),
            pr("none", &[("z", 1)], &[("c", 1)], 2),
            pr("q", &[("b", 1)], &[("c", 5)], 7),
        ],
        objectives: vec![s("c")],
    };
    let run = Run::start(&d);
    let steps = successors(&run, &d);
    let seen: Vec<(usize, u64, u64)> = steps.iter().map(|x| (x.index, x.count, x.run.time())).collect();
    assert_eq!(seen, vec![(0, 1, 2), (0, 2, 4), (0, 3, 6), (2, 1, 7)]);
    assert_eq!(steps[1].run.tally(&d.objectives), 2);
    assert_eq!(steps[1].run.log(), &vec![(s("p"), 2, 0)]);
}

#[test]
fn frontier_gives_out_the_lowest_tally_then_the_lowest_rank() {
    let d = shop();
    let node = |tally: u128, rank: u128| Node { run: Run::start(&d), tally, rank };
    let mut frontier = vec![node(3, 1), node(1, 9), node(1, 4), node(2, 0), node(1, 4)];
    let order: Vec<(u128, u128)> = std::iter::from_fn(|| pop_least(&mut frontier))
        .map(|n| (n.tally, n.rank))
        .collect();
    assert_eq!(order, vec![(1, 4), (1, 4), (1, 9), (2, 0), (3, 1)]);
    assert!(pop_least(&mut frontier).is_none());
}

#[test]
fn a_state_improves_by_tally_then_by_time() {
    assert!(improves(5, 9, 4, 1));
    assert!(improves(5, 1, 5, 2));
    assert!(!improves(5, 2, 5, 2));
    assert!(!improves(4, 0, 5, 2));
}

#[test]
fn seen_states_are_told_by_account_and_time() {
    let d = shop();
    let start = Run::start(&d);
    let mut two = Run::start(&d);
    assert!(two.try_fire(&d, 0, 2, 2));
    let mut other = Run::start(&d);
    assert!(other.try_fire(&d, 0, 2, 3));
    let seen = vec![start.duplicate(), two.duplicate()];
    assert!(was_seen(&seen, &start));
    assert!(was_seen(&seen, &two));
    assert!(!was_seen(&seen, &other));
}

#[test]
fn a_star_buys_five_apples_one_duration_each() {
    let d = shop();
    let (time, stocks, log) = krpsim::a_star::optimize(d.duplicate(), &mut polls(1000)).unwrap();
    assert_eq!(time, 5);
    assert_eq!(total_of(&log, "buy_apple"), 5);
    assert!(stocks.same_as(&st(&[("euro", 0), ("apple", 5)])));
    assert!(check_execution(&d, &lines(&log), &stocks).is_ok());
}

#[test]
fn a_star_with_a_spent_budget_returns_the_initial_state() {
    let d = shop();
    let (time, stocks, log) = krpsim::a_star::optimize(d.duplicate(), &mut spent()).unwrap();
    assert_eq!(time, 0);
    assert!(log.is_empty());
    assert!(stocks.same_as(&d.stocks));
}

#[test]
fn a_star_on_an_objective_nothing_makes_keeps_tally_zero() {
    let d = no_gold();
    let (time, stocks, log) = krpsim::a_star::optimize(d.duplicate(), &mut polls(1000)).unwrap();
    assert_eq!(stocks.get(&s("gold")), 0);
    assert_eq!(time, 0);
    assert!(log.is_empty());
}

#[test]
fn a_star_follows_a_chain_to_the_objective() {
    let d = chain();
    let (time, stocks, log) = krpsim::a_star::optimize(d.duplicate(), &mut polls(5000)).unwrap();
    assert_eq!(stocks.get(&s("c")), 4);
    assert_eq!(time, 20);
    assert!(check_execution(&d, &lines(&log), &stocks).is_ok());
}

#[test]
fn ida_star_buys_five_apples_one_duration_each() {
    let d = shop();
    let (time, stocks, log) = krpsim::ida_star::optimize(d.duplicate(), &mut polls(10000)).unwrap();
    assert_eq!(time, 5);
    assert_eq!(total_of(&log, "buy_apple"), 5);
    assert!(stocks.same_as(&st(&[("euro", 0), ("apple", 5)])));
    assert!(check_execution(&d, &lines(&log), &stocks).is_ok());
}

#[test]
fn ida_star_with_a_spent_budget_returns_the_initial_state() {
    let d = shop();
    let (time, stocks, log) = krpsim::ida_star::optimize(d.duplicate(), &mut spent()).unwrap();
    assert_eq!(time, 0);
    assert!(log.is_empty());
    assert!(stocks.same_as(&d.stocks));
}

#[test]
fn ida_star_on_an_objective_nothing_makes_keeps_tally_zero() {
    let d = no_gold();
    let (time, stocks, log) = krpsim::ida_star::optimize(d.duplicate(), &mut polls(10000)).unwrap();
    assert_eq!(stocks.get(&s("gold")), 0);
    assert_eq!(time, 0);
    assert!(log.is_empty());
}

#[test]
fn depth_limited_search_takes_the_state_on_top_of_the_stack() {
    let d = shop();
    let node = |run: Run, rank: u128| Node { tally: run.tally(&d.objectives), run, rank };
    let mut stack = vec![node(Run::start(&d), 7)];
    let mut best = Run::start(&d);
    let mut seen = Vec::new();
    let mut least = None;
    krpsim::ida_star::depth_limited_search(&mut stack, &d, 7, 6, &mut best, &mut seen, &mut least);
    assert_eq!(least, Some(7));
    assert!(stack.is_empty() && seen.is_empty());
    stack.push(node(Run::start(&d), 7));
    krpsim::ida_star::depth_limited_search(&mut stack, &d, 7, 8, &mut best, &mut seen, &mut least);
    assert_eq!(seen.len(), 1);
    let ranks: Vec<(u128, u128)> = stack.iter().map(|n| (n.tally, n.rank)).collect();
    assert_eq!(ranks, vec![(5, 12), (4, 11), (3, 10), (2, 9), (1, 8)]);
    krpsim::ida_star::depth_limited_search(&mut stack, &d, 7, 8, &mut best, &mut seen, &mut least);
    assert_eq!(best.tally(&d.objectives), 1);
    assert_eq!(best.time(), 1);
    assert_eq!(seen.len(), 2);
    assert_eq!(stack.len(), 8);
    krpsim::ida_star::depth_limited_search(&mut stack, &d, 7, 8, &mut best, &mut seen, &mut least);
    assert_eq!(least, Some(7));
    assert_eq!(stack.len(), 7);
    stack.push(node(Run::start(&d), 7));
    krpsim::ida_star::depth_limited_search(&mut stack, &d, 7, 8, &mut best, &mut seen, &mut least);
    assert_eq!(seen.len(), 2);
    assert_eq!(stack.len(), 7);
}

#[test]
fn simulation_fires_each_name_once_in_order() {
    let d = chain();
    let sequence = vec![s("second"), s("first"), s("nothing"), s("second"), s("first")];
    let (left, time) = simulate(&d, &sequence);
    assert_eq!(time, 7);
    assert!(left.same_as(&st(&[("a", 2), ("b", 1), ("c", 1), ("d", 1)])));
    let log = simulate_and_log(&d, &sequence);
    assert_eq!(log, vec![(s("first"), 1, 0), (s("second"), 1, 2), (s("first"), 1, 5)]);
    assert!(check_execution(&d, &lines(&log), &left).is_ok());
}

#[test]
fn fitness_weights_each_stock_by_its_score() {
    let stocks = st(&[("a", 3), ("b", 5), ("c", 7)]);
    let scores = st(&[("a", 2), ("c", 10)]);
    assert_eq!(fitness_of(&stocks, &scores), 76);
    let huge = st(&[("a", u64::MAX), ("b", u64::MAX), ("c", u64::MAX)]);
    assert_eq!(fitness_of(&huge, &huge), u128::MAX);
    let d = chain();
    let scores = precompute_stock_scores(&d);
    let (fitness, time) = evaluate_fitness(&d, &vec![s("first"), s("second")], &scores);
    assert_eq!(fitness, 3 * 2 + 0 * 3 + 1 * 4);
    assert_eq!(time, 5);
}

#[test]
fn crossover_joins_the_head_of_one_and_the_tail_of_the_other() {
    let a = vec![s("a1"), s("a2"), s("a3")];
    let b = vec![s("b1"), s("b2"), s("b3"), s("b4")];
    assert_eq!(crossover(&a, &b, 1), vec![s("a1"), s("b2"), s("b3"), s("b4")]);
    assert_eq!(crossover(&a, &b, 0), b);
    assert_eq!(crossover(&b, &a, 4), b);
    assert_eq!(crossover(&a, &b, 3), vec![s("a1"), s("a2"), s("a3"), s("b4")]);
}

#[test]
fn mutation_replaces_one_name() {
    let mut a = vec![s("a1"), s("a2"), s("a3")];
    mutate(&mut a, 1, s("x"));
    assert_eq!(a, vec![s("a1"), s("x"), s("a3")]);
}

#[test]
fn survivors_are_the_fittest_in_falling_order() {
    let mut population: Vec<Solution> =
        [1u128, 5, 3, 4, 5].iter().map(|f| Solution::new(vec![s("p")], *f, 0)).collect();
    assert_eq!(fittest(&population), Some(1));
    select_survivors(&mut population, 3);
    let kept: Vec<u128> = population.iter().map(|x| x.fitness).collect();
    assert_eq!(kept, vec![5, 5, 4]);
    assert_eq!(fittest(&vec![]), None);
    select_survivors(&mut population, 9);
    assert_eq!(population.len(), 3);
}

#[test]
fn a_new_solution_has_no_log() {
    let x = Solution::new(vec![s("p"), s("q")], 7, 9);
    assert_eq!(x.sequence, vec![s("p"), s("q")]);
    assert_eq!(x.fitness, 7);
    assert_eq!(x.time, 9);
    assert!(x.log.is_empty());
}

#[test]
fn genetic_fires_each_name_of_the_fittest_once() {
    let d = shop();
    let mut rng = rand::thread_rng();
    let best = evolve(&d, &mut polls(3), 8, &mut rng);
    let (time, stocks, log) = best.into_result(&d);
    assert_eq!(time, 1);
    assert_eq!(log, vec![(s("buy_apple"), 1, 0)]);
    assert!(stocks.same_as(&st(&[("euro", 8), ("apple", 1)])));
    assert!(check_execution(&d, &lines(&log), &stocks).is_ok());
}

#[test]
fn genetic_with_a_spent_budget_still_returns_a_schedule() {
    let d = chain();
    let mut rng = rand::thread_rng();
    let best = evolve(&d, &mut spent(), 4, &mut rng);
    let (time, stocks, log) = best.into_result(&d);
    assert_eq!(time, 6);
    assert_eq!(stocks.get(&s("c")), 1);
    assert!(check_execution(&d, &lines(&log), &stocks).is_ok());
    let empty = evolve(&d, &mut polls(2), 0, &mut rng);
    assert_eq!(empty.time(), 0);
}

#[test]
fn genetic_schedules_pass_the_replay_check() {
    let d = chain();
    let mut rng = rand::thread_rng();
    let best = evolve(&d, &mut polls(5), 16, &mut rng);
    let (_, stocks, log) = best.into_result(&d);
    assert!(check_execution(&d, &lines(&log), &stocks).is_ok());
    let gold = no_gold();
    let best = evolve(&gold, &mut polls(5), 16, &mut rng);
    assert_eq!(best.stocks().get(&s("gold")), 0);
}

#[test]
fn the_wheel_holds_the_processes_that_can_fire_and_have_a_weight() {
    let d = chain();
    let run = Run::start(&d);
    let wheel = build_wheel(&run, &d, &vec![3, 5, 4]);
    let shares: Vec<(usize, u64, u64)> = wheel.iter().map(|w| (w.index, w.most, w.upto)).collect();
    assert_eq!(shares, vec![(0, 4, 3), (2, 1, 7)]);
    assert_eq!(spin(&wheel, 0), 0);
    assert_eq!(spin(&wheel, 2), 0);
    assert_eq!(spin(&wheel, 3), 1);
    assert_eq!(spin(&wheel, 6), 1);
    assert!(build_wheel(&run, &d, &vec![0, 5]).is_empty());
    let full = build_wheel(&run, &d, &vec![u64::MAX, 5, u64::MAX]);
    assert_eq!(full[1].upto, u64::MAX);
}

#[test]
fn an_ant_draws_only_what_can_fire() {
    let d = chain();
    let run = Run::start(&d);
    let mut rng = rand::thread_rng();
    let mut counts = std::collections::HashSet::new();
    for _ in 0..200 {
        let (index, count) = select_next_process(&run, &d, &vec![1, 1, 0], &mut rng).unwrap();
        assert_eq!(index, 0);
        assert!(1 <= count && count <= 4);
        counts.insert(count);
    }
    assert!(counts.len() > 1);
    assert!(select_next_process(&run, &d, &vec![0, 1, 0], &mut rng).is_none());
}

#[test]
fn an_ant_path_passes_the_replay_check() {
    let d = shop();
    let mut rng = rand::thread_rng();
    for _ in 0..20 {
        let (run, used) = construct_solution(&d, &vec![1], &mut rng, &mut polls(1000));
        assert!(used.len() as u64 <= MAX_STEPS);
        assert_eq!(used.len(), run.log().len());
        let (score, time, stocks) = evaluate_solution(&d, &run);
        assert_eq!(score, stocks.get(&s("apple")) as u128);
        assert_eq!(score, evaluate_objective(&d.objectives, &stocks));
        assert_eq!(stocks.get(&s("euro")), 0);
        assert_eq!(score, 5);
        assert_eq!(time, used.len() as u64);
        assert!(check_execution(&d, &lines(run.log()), &stocks).is_ok());
    }
}

#[test]
fn an_ant_with_a_spent_budget_stays_at_the_start() {
    let d = shop();
    let mut rng = rand::thread_rng();
    let (run, used) = construct_solution(&d, &vec![1], &mut rng, &mut spent());
    assert!(used.is_empty());
    assert_eq!(run.time(), 0);
    let (score, _, stocks) = evaluate_solution(&no_gold(), &Run::start(&no_gold()));
    assert_eq!(score, 0);
    assert!(stocks.same_as(&st(&[("euro", 10)])));
}

#[test]
fn an_ant_stops_when_the_tally_stalls() {
    let d = Data {
        stocks: st(&[("a", 1000)]),
        processes: vec![pr("burn", &[("a", 1)], &[("ash", 1)], 1)],
        objectives: vec![s("gold")],
    };
    let mut rng = rand::thread_rng();
    let (run, used) = construct_solution(&d, &vec![1], &mut rng, &mut polls(1000));
    assert!(used.len() <= 6);
    assert_eq!(run.tally(&d.objectives), 0);
}

#[test]
fn a_neighbour_fires_one_process_a_few_times_in_a_row() {
    let d = shop();
    let run = Run::start(&d);
    let mut rng = rand::thread_rng();
    let mut seen = std::collections::HashSet::new();
    for _ in 0..200 {
        let next = random_neighbor(&run, &d, &mut rng);
        let fired = next.log().len() as u64;
        assert!(1 <= fired && fired <= 5);
        assert_eq!(next.time(), fired);
        assert_eq!(next.tally(&d.objectives), fired as u128);
        let (_, stocks, log) = next.into_result(&d);
        assert!(check_execution(&d, &lines(&log), &stocks).is_ok());
        seen.insert(fired);
    }
    assert!(seen.len() > 1);
}

#[test]
fn a_neighbour_of_a_dead_end_is_the_run_itself() {
    let d = no_gold();
    let mut run = Run::start(&d);
    assert!(run.try_fire(&d, 0, 5, 1));
    let mut rng = rand::thread_rng();
    let next = random_neighbor(&run, &d, &mut rng);
    assert!(next.same_state(&run));
    assert_eq!(next.log(), run.log());
    assert!(feasible_processes(&run, &d).is_empty());
    assert!(!apply_process(&mut run, &d, 0));
}

#[test]
fn feasible_processes_come_with_their_largest_count() {
    let d = chain();
    let run = Run::start(&d);
    assert_eq!(feasible_processes(&run, &d), vec![(0, 4), (2, 1)]);
}

#[test]
fn a_budget_that_was_found_spent_stays_spent() {
    let flag = Arc::new(AtomicBool::new(false));
    let mut b = Budget::new(flag.clone(), 5);
    assert!(!b.spent());
    flag.store(true, std::sync::atomic::Ordering::SeqCst);
    assert!(b.spent());
    flag.store(false, std::sync::atomic::Ordering::SeqCst);
    assert!(b.spent());
}

#[test]
fn the_genetic_algorithm_runs_on_its_full_population() {
    let d = shop();
    let (time, stocks, log) = krpsim::genetic::genetic_algorithm(d.duplicate(), &mut polls(1)).unwrap();
    assert_eq!(time, 1);
    assert_eq!(log, vec![(s("buy_apple"), 1, 0)]);
    assert!(stocks.same_as(&st(&[("euro", 8), ("apple", 1)])));
    assert!(check_execution(&d, &lines(&log), &stocks).is_ok());
    assert_eq!(krpsim::genetic::POPULATION_SIZE, 20000);
}

#[test]
fn evolution_finds_a_sequence_that_the_first_population_lacks() {
    let d = Data {
        stocks: st(&[("a", 2), ("goal", 0), ("waste", 0)]),
        processes: vec![
            pr("spoil", &[("a", 1)], &[("waste", 1)], 1),
            pr("make", &[("a", 1)], &[("goal", 1)], 1),
        ],
        objectives: vec![s("goal")],
    };
    let mut rng = rand::thread_rng();
    let mut most = 0;
    for _ in 0..10 {
        let best = evolve(&d, &mut polls(30), 40, &mut rng);
        let (_, stocks, log) = best.into_result(&d);
        assert!(check_execution(&d, &lines(&log), &stocks).is_ok());
        most = most.max(stocks.get(&s("goal")));
    }
    assert_eq!(most, 2);
}

#[test]
fn a_search_that_ends_unspent_returns_the_best_schedule() {
    let d = Data {
        stocks: st(&[("a", 3), ("b", 1)]),
        processes: vec![
            pr("slow", &[("a", 1)], &[("goal", 1)], 5),
            pr("quick", &[("a", 1)], &[("goal", 1)], 2),
            pr("rich", &[("a", 2); 1], &[("goal", 3)], 4),
            pr("swap", &[("b", 1)], &[("a", 1)], 1),
        ],
        objectives: vec![s("goal")],
    };
    for which in 0..3 {
        let mut budget = polls(100000);
        let found = match which {
            0 => krpsim::dijkstra::optimize(d.duplicate(), &mut budget),
            1 => krpsim::a_star::optimize(d.duplicate(), &mut budget),
            _ => krpsim::ida_star::optimize(d.duplicate(), &mut budget),
        };
        let (time, stocks, log) = found.unwrap();
        assert!(!budget.spent());
        assert_eq!(stocks.get(&s("goal")), 6);
        assert_eq!(time, 9);
        assert!(check_execution(&d, &lines(&log), &stocks).is_ok());
    }
}

#[test]
fn an_ant_rests_after_too_many_steps_without_a_gain() {
    let d = Data {
        stocks: st(&[("a", 100), ("b", 1)]),
        processes: vec![
            pr("burn", &[("a", 1)], &[("ash", 1)], 2),
            pr("win", &[("b", 1)], &[("gold", 4)], 3),
        ],
        objectives: vec![s("gold")],
    };
    let mut ant = Ant::start(&d);
    assert!(!ant.rests());
    assert!(!ant.advance(&d, (0, 101)));
    assert!(!ant.advance(&d, (2, 1)));
    assert_eq!(ant.steps, 0);
    for n in 1..=3 {
        assert!(ant.advance(&d, (0, 2)));
        assert_eq!(ant.stalled, n);
    }
    assert!(ant.advance(&d, (1, 1)));
    assert_eq!(ant.stalled, 0);
    assert_eq!(ant.last_score, 4);
    assert_eq!(ant.run.time(), 9);
    for n in 1..=STALL_LIMIT + 1 {
        assert!(!ant.rests());
        assert!(ant.advance(&d, (0, 1)));
        assert_eq!(ant.stalled, n);
    }
    assert!(ant.rests());
    assert_eq!(ant.steps, 10);
    assert_eq!(ant.used.len(), 10);
    assert_eq!(ant.used[3], (1, 1));
}

#[test]
fn children_enter_the_frontier_with_the_last_step_first() {
    let d = shop();
    let run = Run::start(&d);
    let mut frontier: Vec<Node> = Vec::new();
    krpsim::search::enter_children(&mut frontier, &run, &d, 100);
    let shown: Vec<(u128, u128, u64)> = frontier.iter().map(|n| (n.tally, n.rank, n.run.time())).collect();
    assert_eq!(shown, vec![(5, 105, 5), (4, 104, 4), (3, 103, 3), (2, 102, 2), (1, 101, 1)]);
    let spent_up = frontier[0].run.duplicate();
    krpsim::search::enter_children(&mut frontier, &spent_up, &d, u128::MAX);
    assert_eq!(frontier.len(), 5);
}

#[test]
fn a_search_with_no_polls_returns_the_initial_state() {
    let d = shop();
    for which in 0..6 {
        let mut none = polls(0);
        let (time, stocks, log) = match which {
            0 => krpsim::dijkstra::optimize(d.duplicate(), &mut none).unwrap(),
            1 => krpsim::a_star::optimize(d.duplicate(), &mut none).unwrap(),
            2 => krpsim::ida_star::optimize(d.duplicate(), &mut none).unwrap(),
            3 => {
                let (after, time, log) = krpsim::sgs::sgs_algorithm(d.duplicate(), &mut none);
                (time, after.stocks, log)
            },
            4 => {
                let (after, time, log) = krpsim::tabu::tabu_search(&d, 10, 10, &mut none);
                (time, after.stocks, log)
            },
            _ => {
                let mut rng = rand::thread_rng();
                let (run, used) = construct_solution(&d, &vec![1], &mut rng, &mut none);
                assert!(used.is_empty());
                run.into_result(&d)
            },
        };
        assert_eq!(time, 0);
        assert!(log.is_empty());
        assert!(stocks.same_as(&d.stocks));
        assert!(none.spent());
    }
}

#[test]
fn the_genetic_algorithm_with_no_polls_simulates_all_the_processes_in_order() {
    let d = chain();
    let mut rng = rand::thread_rng();
    let best = evolve(&d, &mut polls(0), 6, &mut rng);
    assert_eq!(best.log(), &vec![(s("first"), 1, 0), (s("second"), 1, 2), (s("idle"), 1, 5)]);
    let one = evolve(&d, &mut polls(4), 1, &mut rng);
    assert_eq!(one.log().len(), 3);
}

#[test]
fn the_fittest_run_simulates_the_first_of_the_fittest() {
    let d = chain();
    let population = vec![
        Solution::new(vec![s("idle")], 3, 0),
        Solution::new(vec![s("first"), s("second")], 9, 0),
        Solution::new(vec![s("first")], 9, 0),
    ];
    let run = fittest_run(&population, &d);
    assert_eq!(run.log(), &vec![(s("first"), 1, 0), (s("second"), 1, 2)]);
    assert_eq!(fittest_run(&vec![], &d).time(), 0);
}
