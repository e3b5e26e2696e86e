use krpsim::model::{Data, Process};
use krpsim::replay::{check_execution, find_process, CheckError, Execution};
use krpsim::stocks::Stocks;

fn text(s: &str) -> String {
    s.to_string()
}

fn list(items: &[(&str, u64)]) -> Vec<(String, u64)> {
    items.iter().map(|(k, q)| (k.to_string(), *q)).collect()
}

fn make_process(id: &str, input: &[(&str, u64)], output: &[(&str, u64)], time: u64) -> Process {
    Process { id: text(id), input: list(input), output: list(output), time }
}

fn make_stocks(items: &[(&str, u64)]) -> Stocks {
    let mut s = Stocks::new();
    for (k, q) in items {
        s.set(k.to_string(), *q);
    }
    s
}

fn run_of(items: &[(u64, &str)]) -> Vec<Execution> {
    items.iter().map(|(t, p)| Execution { time: *t, process_name: p.to_string() }).collect()
}

fn apples() -> Data {
    Data {
        stocks: make_stocks(&[("euro", 10)]),
        processes: vec![make_process("buy_apple", &[("euro", 2)], &[("apple", 1)], 1)],
        objectives: vec![text("apple")],
    }
}

#[test]
fn accepts_five_batched_purchases() {
    let d = apples();
    let trace = run_of(&[(0, "buy_apple"); 5]);
    let claimed = make_stocks(&[("euro", 0), ("apple", 5)]);
    assert!(check_execution(&d, &trace, &claimed).is_ok());
}

#[test]
fn accepts_five_purchases_in_a_row() {
    let d = apples();
    let trace = run_of(&[
        (0, "buy_apple"),
        (1, "buy_apple"),
        (2, "buy_apple"),
        (3, "buy_apple"),
        (4, "buy_apple"),
    ]);
    let claimed = make_stocks(&[("apple", 5), ("euro", 0)]);
    assert!(check_execution(&d, &trace, &claimed).is_ok());
}

#[test]
fn accepts_the_empty_schedule_with_the_initial_stocks() {
    let d = Data {
        stocks: make_stocks(&[("euro", 10), ("gold", 0)]),
        processes: vec![make_process("buy_apple", &[("euro", 2)], &[("apple", 1)], 1)],
        objectives: vec![text("gold")],
    };
    let claimed = make_stocks(&[("euro", 10), ("gold", 0)]);
    assert!(check_execution(&d, &vec![], &claimed).is_ok());
}

#[test]
fn refuses_an_unknown_process() {
    let d = apples();
    let trace = run_of(&[(0, "buy_apple"), (3, "sell_apple")]);
    let claimed = make_stocks(&[("euro", 8), ("apple", 1)]);
    match check_execution(&d, &trace, &claimed) {
        Err(CheckError::ProcessNotFound { name, time }) => {
            assert_eq!(name, "sell_apple");
            assert_eq!(time, 3);
        },
        _ => panic!("the unknown process was not reported"),
    }
}

#[test]
fn refuses_a_sixth_purchase() {
    let d = apples();
    let trace = run_of(&[(0, "buy_apple"); 6]);
    let claimed = make_stocks(&[("euro", 0), ("apple", 6)]);
    match check_execution(&d, &trace, &claimed) {
        Err(CheckError::NotEnoughStock { process, time, stock, needed, available }) => {
            assert_eq!(process, "buy_apple");
            assert_eq!(time, 0);
            assert_eq!(stock, "euro");
            assert_eq!(needed, 2);
            assert_eq!(available, 0);
        },
        _ => panic!("the shortage was not reported"),
    }
}

#[test]
fn same_tick_outputs_are_not_visible() {
    let d = Data {
        stocks: make_stocks(&[("x", 1)]),
        processes: vec![
            make_process("first", &[("x", 1)], &[("x", 1)], 1),
            make_process("second", &[("x", 1)], &[("y", 1)], 1),
        ],
        objectives: vec![text("y")],
    };
    let claimed = make_stocks(&[("x", 0), ("y", 1)]);
    let together = run_of(&[(5, "first"), (5, "second")]);
    match check_execution(&d, &together, &claimed) {
        Err(CheckError::NotEnoughStock { process, time, stock, needed, available }) => {
            assert_eq!(process, "second");
            assert_eq!(time, 5);
            assert_eq!(stock, "x");
            assert_eq!(needed, 1);
            assert_eq!(available, 0);
        },
        _ => panic!("the second firing of the tick was not refused"),
    }
    let apart = run_of(&[(5, "first"), (6, "second")]);
    assert!(check_execution(&d, &apart, &claimed).is_ok());
}

#[test]
fn refuses_other_final_stocks() {
    let d = apples();
    let trace = run_of(&[(0, "buy_apple")]);
    let wrong = make_stocks(&[("euro", 8), ("apple", 2)]);
    match check_execution(&d, &trace, &wrong) {
        Err(CheckError::FinalMismatch { expected, found }) => {
            assert!(expected.same_as(&wrong));
            assert!(found.same_as(&make_stocks(&[("euro", 8), ("apple", 1)])));
        },
        _ => panic!("the mismatch was not reported"),
    }
}

#[test]
fn final_stocks_are_held_over_the_whole_key_set() {
    let d = apples();
    let missing = make_stocks(&[("apple", 1)]);
    let trace = run_of(&[(0, "buy_apple")]);
    assert!(check_execution(&d, &trace, &missing).is_err());
    let extra = make_stocks(&[("euro", 10), ("apple", 0)]);
    assert!(check_execution(&d, &vec![], &extra).is_err());
}

#[test]
fn refuses_what_the_machine_cannot_count() {
    let d = Data {
        stocks: make_stocks(&[("a", 2), ("b", u64::MAX)]),
        processes: vec![make_process("p", &[("a", 1)], &[("b", 1)], 1)],
        objectives: vec![],
    };
    let trace = run_of(&[(0, "p")]);
    match check_execution(&d, &trace, &make_stocks(&[])) {
        Err(CheckError::QuantityOverflow { process, time }) => {
            assert_eq!(process, "p");
            assert_eq!(time, 0);
        },
        _ => panic!("the overflow was not reported"),
    }
}

#[test]
fn the_first_process_of_a_name_is_the_one_replayed() {
    let d = Data {
        stocks: make_stocks(&[("a", 1)]),
        processes: vec![
            make_process("p", &[("a", 1)], &[("b", 1)], 1),
            make_process("p", &[("a", 1)], &[("c", 1)], 1),
        ],
        objectives: vec![],
    };
    assert_eq!(find_process(&d.processes, &text("p")), Some(0));
    assert_eq!(find_process(&d.processes, &text("q")), None);
    let trace = run_of(&[(0, "p")]);
    assert!(check_execution(&d, &trace, &make_stocks(&[("a", 0), ("b", 1)])).is_ok());
}
