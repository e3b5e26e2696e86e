use krpsim::model::{
    can_apply, can_execute, execute, max_runs, need_of, new_data, objective_value, Data, Process,
};
use krpsim::stocks::Stocks;

fn name(s: &str) -> String {
    s.to_string()
}

fn pairs(list: &[(&str, u64)]) -> Vec<(String, u64)> {
    list.iter().map(|(k, q)| (k.to_string(), *q)).collect()
}

fn process(id: &str, input: &[(&str, u64)], output: &[(&str, u64)], time: u64) -> Process {
    Process { id: name(id), input: pairs(input), output: pairs(output), time }
}

fn stocks(list: &[(&str, u64)]) -> Stocks {
    let mut s = Stocks::new();
    for (k, q) in list {
        s.set(k.to_string(), *q);
    }
    s
}

fn apple_problem() -> Data {
    Data {
        stocks: stocks(&[("euro", 10)]),
        processes: vec![process("buy_apple", &[("euro", 2)], &[("apple", 1)], 1)],
        objectives: vec![name("apple")],
    }
}

#[test]
fn stocks_hold_zero_of_unknown_names() {
    let s = stocks(&[("euro", 10)]);
    assert_eq!(s.get(&name("euro")), 10);
    assert_eq!(s.get(&name("apple")), 0);
    assert!(s.contains(&name("euro")));
    assert!(!s.contains(&name("apple")));
    assert_eq!(s.len(), 1);
}

#[test]
fn stocks_set_replaces_and_appends() {
    let mut s = stocks(&[("a", 1), ("b", 2)]);
    s.set(name("a"), 7);
    s.set(name("c"), 3);
    assert_eq!(s.len(), 3);
    assert_eq!(s.get(&name("a")), 7);
    assert_eq!(s.name_at(2), "c");
    assert_eq!(s.amount_at(2), 3);
    assert_eq!(s.find(&name("b")), Some(1));
    assert_eq!(s.find(&name("z")), None);
}

#[test]
fn stocks_equality_is_over_the_key_set() {
    let a = stocks(&[("a", 1), ("b", 0)]);
    let b = stocks(&[("b", 0), ("a", 1)]);
    let c = stocks(&[("a", 1)]);
    assert!(a.same_as(&b));
    assert!(!a.same_as(&c));
    assert!(c.included_in(&a));
    assert!(!a.included_in(&c));
    assert!(a.duplicate().same_as(&a));
}

#[test]
fn new_data_is_empty() {
    let d = new_data();
    assert_eq!(d.stocks.len(), 0);
    assert!(d.processes.is_empty());
    assert!(d.objectives.is_empty());
    assert_eq!(objective_value(&d), 0);
}

#[test]
fn need_sums_repeated_names() {
    let list = pairs(&[("a", 2), ("b", 5), ("a", 3)]);
    assert_eq!(need_of(&list, &name("a")), 5);
    assert_eq!(need_of(&list, &name("b")), 5);
    assert_eq!(need_of(&list, &name("c")), 0);
}

#[test]
fn max_runs_is_the_largest_feasible_count() {
    let d = apple_problem();
    assert_eq!(max_runs(&d.stocks, &d.processes[0].input), 5);
    assert!(can_execute(&d, &d.processes[0], 5));
    assert!(!can_execute(&d, &d.processes[0], 6));
    assert!(can_execute(&d, &d.processes[0], 0));
}

#[test]
fn max_runs_is_zero_when_a_stock_is_absent() {
    let d = apple_problem();
    let p = process("p", &[("euro", 1), ("pear", 1)], &[], 1);
    assert_eq!(max_runs(&d.stocks, &p.input), 0);
}

#[test]
fn max_runs_is_zero_for_a_process_that_takes_nothing() {
    let d = apple_problem();
    let none = process("p", &[], &[("apple", 1)], 1);
    let zero = process("q", &[("euro", 0)], &[("apple", 1)], 1);
    assert_eq!(max_runs(&d.stocks, &none.input), 0);
    assert_eq!(max_runs(&d.stocks, &zero.input), 0);
}

#[test]
fn max_runs_counts_a_stock_named_twice() {
    let s = stocks(&[("a", 10)]);
    let p = process("p", &[("a", 2), ("a", 3)], &[], 1);
    assert_eq!(max_runs(&s, &p.input), 2);
}

#[test]
fn max_runs_grows_with_the_stocks() {
    let p = process("p", &[("a", 3), ("b", 2)], &[], 1);
    let small = stocks(&[("a", 9), ("b", 4)]);
    let large = stocks(&[("a", 9), ("b", 7)]);
    assert_eq!(max_runs(&small, &p.input), 2);
    assert_eq!(max_runs(&large, &p.input), 3);
}

#[test]
fn execute_takes_inputs_and_adds_outputs() {
    let mut d = apple_problem();
    let p = d.processes[0].duplicate();
    execute(&mut d, &p, 3);
    assert_eq!(d.stocks.get(&name("euro")), 4);
    assert_eq!(d.stocks.get(&name("apple")), 3);
    assert_eq!(objective_value(&d), 3);
}

#[test]
fn firing_is_linear_in_the_count() {
    let mut twice = apple_problem();
    let mut once = apple_problem();
    let p = twice.processes[0].duplicate();
    execute(&mut twice, &p, 2);
    execute(&mut twice, &p, 3);
    execute(&mut once, &p, 5);
    assert!(twice.stocks.same_as(&once.stocks));
    assert_eq!(once.stocks.get(&name("euro")), 0);
    assert_eq!(once.stocks.get(&name("apple")), 5);
}

#[test]
fn can_apply_refuses_what_the_machine_cannot_count() {
    let s = stocks(&[("a", 1), ("b", u64::MAX)]);
    let p = process("p", &[("a", 1)], &[("b", 1)], 1);
    let q = process("q", &[("a", 1)], &[("c", u64::MAX)], 1);
    assert!(!can_apply(&s, &p, 1));
    assert!(can_apply(&s, &q, 1));
    assert!(!can_apply(&s, &q, 2));
}

#[test]
fn objective_value_sums_the_objective_stocks() {
    let d = Data {
        stocks: stocks(&[("a", 4), ("b", 6), ("c", 100)]),
        processes: vec![],
        objectives: vec![name("a"), name("b"), name("time")],
    };
    assert_eq!(objective_value(&d), 10);
}

#[test]
fn objective_value_does_not_wrap() {
    let d = Data {
        stocks: stocks(&[("a", u64::MAX), ("b", u64::MAX)]),
        processes: vec![],
        objectives: vec![name("a"), name("b")],
    };
    assert_eq!(objective_value(&d), 2 * (u64::MAX as u128));
}
