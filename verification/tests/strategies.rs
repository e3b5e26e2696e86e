use krpsim::budget::Budget;
use krpsim::model::{Data, Process};
use krpsim::replay::{check_execution, Execution};
use krpsim::trace::{format_finish, format_firing, format_stock, marker_line, parse_result_file};
use krpsim::run::Run;
use krpsim::sgs::{cost_of, gain_of, outranks, sgs_algorithm, sgs_step};
use krpsim::stocks::Stocks;
use krpsim::tabu::{generate_neighbors, moves, pick_move, tabu_search};
use std::collections::VecDeque;
use std::sync::atomic::AtomicBool;
use std::sync::Arc;

fn word(s: &str) -> String {
    s.to_string()
}

fn amounts(items: &[(&str, u64)]) -> Vec<(String, u64)> {
    items.iter().map(|(k, q)| (k.to_string(), *q)).collect()
}

fn proc_of(id: &str, input: &[(&str, u64)], output: &[(&str, u64)], time: u64) -> Process {
    Process { id: word(id), input: amounts(input), output: amounts(output), time }
}

fn stocks_of(items: &[(&str, u64)]) -> Stocks {
    let mut s = Stocks::new();
    for (k, q) in items {
        s.set(k.to_string(), *q);
    }
    s
}

fn apple_shop() -> Data {
    Data {
        stocks: stocks_of(&[("euro", 10)]),
        processes: vec![proc_of("buy_apple", &[("euro", 2)], &[("apple", 1)], 1)],
        objectives: vec![word("apple")],
    }
}

fn barren() -> Data {
    Data {
        stocks: stocks_of(&[("euro", 10)]),
        processes: vec![proc_of("buy_apple", &[("euro", 2)], &[("apple", 1)], 1)],
        objectives: vec![word("gold")],
    }
}

fn budget(polls: u64) -> Budget {
    Budget::new(Arc::new(AtomicBool::new(false)), polls)
}

fn raised() -> Budget {
    Budget::until_raised(Arc::new(AtomicBool::new(true)))
}

fn unroll(log: &Vec<(String, u64, u64)>) -> Vec<Execution> {
    let mut out = Vec::new();
    for (id, count, start) in log {
        for _ in 0..*count {
            out.push(Execution { time: *start, process_name: id.clone() });
        }
    }
    out
}

fn fired_in_all(log: &Vec<(String, u64, u64)>, id: &str) -> u64 {
    log.iter().filter(|r| r.0 == id).map(|r| r.1).sum()
}

#[test]
fn budget_is_spent_when_the_flag_is_raised() {
    let mut b = raised();
    assert!(b.spent());
    assert!(b.spent());
}

#[test]
fn budget_is_spent_after_its_polls() {
    let mut b = budget(2);
    assert!(!b.spent());
    assert!(!b.spent());
    assert!(b.spent());
}

#[test]
fn sgs_buys_five_apples_in_one_batch() {
    let d = apple_shop();
    let (after, time, log) = sgs_algorithm(d.duplicate(), &mut budget(100));
    assert_eq!(time, 1);
    assert_eq!(log, vec![(word("buy_apple"), 5, 0)]);
    assert!(after.stocks.same_as(&stocks_of(&[("euro", 0), ("apple", 5)])));
    assert!(check_execution(&d, &unroll(&log), &after.stocks).is_ok());
}

#[test]
fn sgs_with_a_spent_budget_returns_the_initial_state() {
    let d = apple_shop();
    let (after, time, log) = sgs_algorithm(d.duplicate(), &mut raised());
    assert_eq!(time, 0);
    assert!(log.is_empty());
    assert!(after.stocks.same_as(&d.stocks));
    assert!(check_execution(&d, &unroll(&log), &after.stocks).is_ok());
}

#[test]
fn sgs_takes_the_highest_score_and_the_first_of_equals() {
    let d = Data {
        stocks: stocks_of(&[("a", 4), ("b", 4)]),
        processes: vec![
            proc_of("low", &[("a", 2)], &[("goal", 1)], 3),
            proc_of("high", &[("b", 2)], &[("goal", 2)], 5),
            proc_of("same", &[("b", 2)], &[("goal", 2)], 1),
        ],
        objectives: vec![word("goal")],
    };
    let mut run = Run::start(&d);
    assert_eq!(sgs_step(&mut run, &d), Some(1));
    assert_eq!(run.time(), 5);
    assert_eq!(run.log(), &vec![(word("high"), 2, 0)]);
    assert_eq!(sgs_step(&mut run, &d), Some(0));
    assert_eq!(run.time(), 8);
    assert_eq!(sgs_step(&mut run, &d), None);
    assert!(run.stocks().same_as(&stocks_of(&[("a", 0), ("b", 0), ("goal", 6)])));
}

#[test]
fn sgs_scores_are_gain_less_cost() {
    let objectives = vec![word("goal")];
    assert_eq!(gain_of(&amounts(&[("goal", 3), ("other", 9)]), &objectives), 3);
    assert_eq!(cost_of(&amounts(&[("goal", 3), ("other", 9)]), &objectives), 7);
    assert!(outranks(3, 7, 0, 5));
    assert!(!outranks(3, 7, 3, 7));
    assert!(outranks(1, 0, 0, 0));
    assert!(!outranks(0, 9, 0, 2));
}

#[test]
fn sgs_on_an_objective_nothing_makes_keeps_tally_zero() {
    let d = barren();
    let (after, _, log) = sgs_algorithm(d.duplicate(), &mut budget(100));
    assert_eq!(after.stocks.get(&word("gold")), 0);
    assert!(check_execution(&d, &unroll(&log), &after.stocks).is_ok());
}

#[test]
fn neighbors_are_the_largest_firings() {
    let d = Data {
        stocks: stocks_of(&[("euro", 10), ("pear", 1)]),
        processes: vec![
            proc_of("buy_apple", &[("euro", 2)], &[("apple", 1)], 1),
            proc_of("buy_gold", &[("euro", 11)], &[("gold", 1)], 2),
            proc_of("eat_pear", &[("pear", 1)], &[], 7),
        ],
        objectives: vec![word("apple")],
    };
    let list = generate_neighbors(&d);
    assert_eq!(list.len(), 2);
    assert_eq!(list[0].1, 1);
    assert!(list[0].0.stocks.same_as(&stocks_of(&[("euro", 0), ("pear", 1), ("apple", 5)])));
    assert_eq!(list[1].1, 7);
    assert!(list[1].0.stocks.same_as(&stocks_of(&[("euro", 10), ("pear", 0)])));
}

#[test]
fn tabu_buys_five_apples_in_one_batch() {
    let d = apple_shop();
    let (after, time, log) = tabu_search(&d, 50, 10, &mut budget(100));
    assert_eq!(time, 1);
    assert_eq!(log, vec![(word("buy_apple"), 5, 0)]);
    assert!(after.stocks.same_as(&stocks_of(&[("euro", 0), ("apple", 5)])));
    assert!(check_execution(&d, &unroll(&log), &after.stocks).is_ok());
}

#[test]
fn tabu_with_a_spent_budget_returns_the_initial_state() {
    let d = apple_shop();
    let (after, time, log) = tabu_search(&d, 50, 10, &mut raised());
    assert_eq!(time, 0);
    assert!(log.is_empty());
    assert!(after.stocks.same_as(&d.stocks));
}

#[test]
fn tabu_on_an_objective_nothing_makes_keeps_tally_zero() {
    let d = barren();
    let (after, time, log) = tabu_search(&d, 50, 10, &mut budget(100));
    assert_eq!(after.stocks.get(&word("gold")), 0);
    assert_eq!(time, 0);
    assert!(log.is_empty());
}

#[test]
fn tabu_picks_the_best_move_that_is_not_tabu() {
    let d = Data {
        stocks: stocks_of(&[("a", 1), ("b", 1)]),
        processes: vec![
            proc_of("one", &[("a", 1)], &[("goal", 1)], 4),
            proc_of("two", &[("b", 1)], &[("goal", 2)], 4),
            proc_of("quick", &[("b", 1)], &[("goal", 2)], 3),
        ],
        objectives: vec![word("goal")],
    };
    let run = Run::start(&d);
    let list = moves(&run, &d);
    assert_eq!(list.len(), 3);
    assert_eq!(list[2].index, 2);
    assert_eq!(pick_move(&list, &VecDeque::new(), &d.objectives), Some(2));
    let banned = VecDeque::from(vec![stocks_of(&[("a", 1), ("b", 0), ("goal", 2)])]);
    assert_eq!(pick_move(&list, &banned, &d.objectives), Some(0));
    let all = VecDeque::from(vec![
        stocks_of(&[("a", 1), ("b", 0), ("goal", 2)]),
        stocks_of(&[("a", 0), ("b", 1), ("goal", 1)]),
    ]);
    assert_eq!(pick_move(&list, &all, &d.objectives), Some(0));
    assert_eq!(pick_move(&vec![], &all, &d.objectives), None);
}

#[test]
fn uniform_cost_buys_five_apples_one_duration_each() {
    let d = apple_shop();
    let (time, stocks, log) = krpsim::dijkstra::optimize(d.duplicate(), &mut budget(1000)).unwrap();
    assert_eq!(time, 5);
    assert_eq!(fired_in_all(&log, "buy_apple"), 5);
    assert!(stocks.same_as(&stocks_of(&[("euro", 0), ("apple", 5)])));
    assert!(check_execution(&d, &unroll(&log), &stocks).is_ok());
}

#[test]
fn uniform_cost_with_a_spent_budget_returns_the_initial_state() {
    let d = apple_shop();
    let (time, stocks, log) = krpsim::dijkstra::optimize(d.duplicate(), &mut raised()).unwrap();
    assert_eq!(time, 0);
    assert!(log.is_empty());
    assert!(stocks.same_as(&d.stocks));
}

#[test]
fn uniform_cost_on_an_objective_nothing_makes_keeps_tally_zero() {
    let d = barren();
    let (time, stocks, log) = krpsim::dijkstra::optimize(d.duplicate(), &mut budget(1000)).unwrap();
    assert_eq!(stocks.get(&word("gold")), 0);
    assert_eq!(time, 0);
    assert!(log.is_empty());
}

#[test]
fn a_run_keeps_same_tick_outputs_waiting() {
    let d = Data {
        stocks: stocks_of(&[("x", 1)]),
        processes: vec![
            proc_of("instant", &[("x", 1)], &[("x", 1)], 0),
            proc_of("slow", &[("x", 1)], &[("y", 1)], 2),
        ],
        objectives: vec![word("y")],
    };
    let mut run = Run::start(&d);
    assert!(run.try_fire(&d, 0, 1, 0));
    assert_eq!(run.visible().get(&word("x")), 0);
    assert!(run.stocks().same_as(&stocks_of(&[("x", 1)])));
    assert!(!run.try_fire(&d, 1, 1, 2));
    assert!(!run.can_fire(&d, 0, 1, 0));
    let (time, stocks, log) = run.into_result(&d);
    assert_eq!(time, 0);
    assert!(check_execution(&d, &unroll(&log), &stocks).is_ok());
}

#[test]
fn a_run_refuses_what_cannot_be_fired() {
    let d = apple_shop();
    let mut run = Run::start(&d);
    assert!(!run.try_fire(&d, 0, 0, 1));
    assert!(!run.try_fire(&d, 0, 6, 1));
    assert!(!run.try_fire(&d, 1, 1, 1));
    assert!(run.try_fire(&d, 0, 2, u64::MAX - 1));
    assert!(!run.try_fire(&d, 0, 1, 2));
    assert_eq!(run.time(), u64::MAX - 1);
    assert_eq!(run.tally(&d.objectives), 2);
    assert_eq!(run.max_runs(&d.processes[0]), 3);
}

#[test]
fn the_objective_value_is_the_time_where_only_time_is_asked_for() {
    let d = apple_shop();
    let mut run = Run::start(&d);
    assert!(run.try_fire(&d, 0, 3, 7));
    assert_eq!(run.objective_value(&vec![word("apple")]), 3);
    assert_eq!(run.objective_value(&vec![word("time")]), 7);
    assert_eq!(run.objective_value(&vec![word("time"), word("time")]), 7);
    assert_eq!(run.objective_value(&vec![word("time"), word("apple")]), 3);
    assert_eq!(run.objective_value(&vec![word("euro"), word("apple")]), 7);
    assert_eq!(run.objective_value(&vec![]), 0);
}

#[test]
fn a_written_schedule_is_read_back_and_accepted() {
    let d = Data {
        stocks: stocks_of(&[("ore", 9), ("coal", 4)]),
        processes: vec![
            proc_of("smelt", &[("ore", 2), ("coal", 1)], &[("iron", 1)], 3),
            proc_of("forge", &[("iron", 2)], &[("tool", 1)], 5),
        ],
        objectives: vec![word("tool")],
    };
    let (after, time, log) = sgs_algorithm(d.duplicate(), &mut budget(100));
    let mut lines = Vec::new();
    for (id, count, start) in &log {
        for _ in 0..*count {
            lines.push(format_firing(*start, id));
        }
    }
    lines.push(String::new());
    lines.push(format_finish(time));
    lines.push(String::new());
    lines.push(marker_line());
    for i in 0..after.stocks.len() {
        lines.push(format_stock(after.stocks.name_at(i), after.stocks.amount_at(i)));
    }
    let (runs, claimed) = parse_result_file(&lines);
    assert_eq!(runs.len(), 6);
    assert!(claimed.same_as(&after.stocks));
    assert!(check_execution(&d, &runs, &claimed).is_ok());
    assert_eq!(after.stocks.get(&word("tool")), 2);
    assert_eq!(time, 8);
}
