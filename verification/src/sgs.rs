//! The serial generation scheme: a greedy scheduler that fires, step by step,
//! the best-scored process that can fire, as often as it can fire at once.

use crate::budget::{polls_used, Budget};
use crate::model::{
    amounts_view, max_feasible_runs, names_view, Data, DataView, ProcessView,
};
use crate::replay::{verdict, Fault};
use crate::ledger::settled;
use crate::run::{can_fire, expand, fired, follows, log_view, Run, RunView};
use vstd::prelude::*;

verus! {

/// What firing once adds to the objective stocks: the outputs that are objectives, summed.
pub open spec fn gain(outputs: Seq<(Seq<char>, nat)>, objectives: Seq<Seq<char>>) -> nat
    decreases outputs.len(),
{
    if outputs.len() == 0 {
        0
    } else {
        gain(outputs.drop_last(), objectives) + if objectives.contains(outputs.last().0) {
            outputs.last().1
        } else {
            0
        }
    }
}

/// What firing once costs: an input that is an objective in full, any other by half.
pub open spec fn cost(inputs: Seq<(Seq<char>, nat)>, objectives: Seq<Seq<char>>) -> nat
    decreases inputs.len(),
{
    if inputs.len() == 0 {
        0
    } else {
        cost(inputs.drop_last(), objectives) + if objectives.contains(inputs.last().0) {
            inputs.last().1
        } else {
            inputs.last().1 / 2
        }
    }
}

/// The score of a process: its gain less its cost.
pub open spec fn score(p: ProcessView, objectives: Seq<Seq<char>>) -> int {
    gain(p.outputs, objectives) - cost(p.inputs, objectives)
}

/// The count at which the scheme fires process `i`: as often as it can fire at once.
pub open spec fn batch(run: RunView, data: DataView, i: int) -> nat {
    max_feasible_runs(run.tick.visible, data.processes[i].inputs)
}

/// Process `i` can fire its batch now, and its duration can pass.
pub open spec fn candidate(run: RunView, data: DataView, i: int) -> bool {
    can_fire(run, data, i, batch(run, data, i), data.processes[i].duration)
}

/// Process `i` is the one the scheme fires: of the candidates the one with
/// the highest score, and of several such the first.
pub open spec fn chosen(run: RunView, data: DataView, i: int) -> bool {
    &&& candidate(run, data, i)
    &&& forall|j: int| #[trigger]
        candidate(run, data, j) ==> score(data.processes[j], data.objectives) < score(
            data.processes[i],
            data.objectives,
        ) || (score(data.processes[j], data.objectives) == score(
            data.processes[i],
            data.objectives,
        ) && i <= j)
}

/// At most one process is the chosen one.
pub proof fn lemma_chosen_unique(run: RunView, data: DataView, i: int, j: int)
    requires
        chosen(run, data, i),
        chosen(run, data, j),
    ensures
        i == j,
{
    assert(candidate(run, data, i));
    assert(candidate(run, data, j));
}

/// The run after one step of the scheme: the chosen process has fired its
/// batch and its duration has passed once; a run without a candidate stays.
pub open spec fn greedy_step(run: RunView, data: DataView) -> RunView {
    if exists|i: int| chosen(run, data, i) {
        let i = choose|i: int| chosen(run, data, i);
        fired(run, data.processes[i], batch(run, data, i), data.processes[i].duration)
    } else {
        run
    }
}

/// The run after `steps` steps of the scheme from the initial stocks.
pub open spec fn greedy(data: DataView, steps: nat) -> RunView
    decreases steps,
{
    if steps == 0 {
        crate::run::initial_run(data)
    } else {
        greedy_step(greedy(data, (steps - 1) as nat), data)
    }
}

/// Whether `names` holds `name`.
pub fn names_contain(names: &Vec<String>, name: &String) -> (b: bool)
    ensures
        b == names_view(names@).contains(name@),
{
    let ghost view = names_view(names@);
    let mut i: usize = 0;
    while i < names.len()
        invariant
            i <= names@.len(),
            view == names_view(names@),
            forall|j: int| 0 <= j < i ==> view[j] != name@,
        decreases names@.len() - i,
    {
        if names[i] == *name {
            assert(view[i as int] == name@);
            return true;
        }
        i += 1;
    }
    false
}

/// The gain of a list of outputs.
pub fn gain_of(outputs: &Vec<(String, u64)>, objectives: &Vec<String>) -> (total: u128)
    ensures
        total == gain(amounts_view(outputs@), names_view(objectives@)),
{
    let ghost av = amounts_view(outputs@);
    let ghost names = names_view(objectives@);
    let mut total: u128 = 0;
    let mut i: usize = 0;
    while i < outputs.len()
        invariant
            i <= outputs@.len(),
            av == amounts_view(outputs@),
            names == names_view(objectives@),
            total == gain(av.take(i as int), names),
            total <= i * u64::MAX,
        decreases outputs@.len() - i,
    {
        proof {
            assert(av.take(i + 1).drop_last() =~= av.take(i as int));
            assert(av[i as int].0 == outputs@[i as int].0@);
            assert((i + 1) * u64::MAX <= u128::MAX) by (nonlinear_arith)
                requires
                    i < 0x1_0000_0000_0000_0000,
            ;
        }
        if names_contain(objectives, &outputs[i].0) {
            total = total + outputs[i].1 as u128;
        }
        i += 1;
    }
    proof {
        assert(av.take(outputs@.len() as int) =~= av);
    }
    total
}

/// The cost of a list of inputs.
pub fn cost_of(inputs: &Vec<(String, u64)>, objectives: &Vec<String>) -> (total: u128)
    ensures
        total == cost(amounts_view(inputs@), names_view(objectives@)),
{
    let ghost av = amounts_view(inputs@);
    let ghost names = names_view(objectives@);
    let mut total: u128 = 0;
    let mut i: usize = 0;
    while i < inputs.len()
        invariant
            i <= inputs@.len(),
            av == amounts_view(inputs@),
            names == names_view(objectives@),
            total == cost(av.take(i as int), names),
            total <= i * u64::MAX,
        decreases inputs@.len() - i,
    {
        proof {
            assert(av.take(i + 1).drop_last() =~= av.take(i as int));
            assert(av[i as int].0 == inputs@[i as int].0@);
            assert((i + 1) * u64::MAX <= u128::MAX) by (nonlinear_arith)
                requires
                    i < 0x1_0000_0000_0000_0000,
            ;
        }
        if names_contain(objectives, &inputs[i].0) {
            total = total + inputs[i].1 as u128;
        } else {
            total = total + (inputs[i].1 / 2) as u128;
        }
        i += 1;
    }
    proof {
        assert(av.take(inputs@.len() as int) =~= av);
    }
    total
}

/// Whether one score, given as gain and cost, is higher than another.
pub fn outranks(gain_a: u128, cost_a: u128, gain_b: u128, cost_b: u128) -> (b: bool)
    ensures
        b == (gain_a - cost_a > gain_b - cost_b),
{
    if gain_a >= cost_a {
        if gain_b >= cost_b {
            gain_a - cost_a > gain_b - cost_b
        } else {
            true
        }
    } else {
        if gain_b >= cost_b {
            false
        } else {
            cost_a - gain_a < cost_b - gain_b
        }
    }
}

/// One step of the scheme: fires the chosen process at its batch count and
/// lets its duration pass once. Without a candidate the run stays as it is.
pub fn sgs_step(run: &mut Run, data: &Data) -> (choice: Option<usize>)
    ensures
        follows(old(run)@, data@) ==> follows(final(run)@, data@),
        final(run)@ == greedy_step(old(run)@, data@),
        match choice {
            Some(i) => chosen(old(run)@, data@, i as int) && final(run)@ == fired(
                old(run)@,
                data@.processes[i as int],
                batch(old(run)@, data@, i as int),
                data@.processes[i as int].duration,
            ),
            None => final(run)@ == old(run)@ && forall|i: int| !candidate(old(run)@, data@, i),
        },
{
    let ghost view = run@;
    let ghost problem = data@;
    let mut best: Option<usize> = None;
    let mut best_gain: u128 = 0;
    let mut best_cost: u128 = 0;
    let mut best_count: u64 = 0;
    let mut i: usize = 0;
    while i < data.processes.len()
        invariant
            i <= data.processes@.len(),
            view == run@,
            problem == data@,
            best is None ==> forall|j: int| 0 <= j < i ==> !candidate(view, problem, j),
            best is Some ==> {
                &&& best->0 < i
                &&& candidate(view, problem, best->0 as int)
                &&& best_count == batch(view, problem, best->0 as int)
                &&& best_gain - best_cost == score(
                    problem.processes[best->0 as int],
                    problem.objectives,
                )
                &&& forall|j: int|
                    0 <= j < i && #[trigger] candidate(view, problem, j) ==> score(
                        problem.processes[j],
                        problem.objectives,
                    ) < score(problem.processes[best->0 as int], problem.objectives) || (score(
                        problem.processes[j],
                        problem.objectives,
                    ) == score(problem.processes[best->0 as int], problem.objectives) && best->0
                        <= j)
            },
        decreases data.processes@.len() - i,
    {
        let process = &data.processes[i];
        assert(problem.processes[i as int] == process@);
        let count = run.max_runs(process);
        if run.can_fire(data, i, count, process.time) {
            let g = gain_of(&process.output, &data.objectives);
            let c = cost_of(&process.input, &data.objectives);
            let better = match best {
                None => true,
                Some(_) => outranks(g, c, best_gain, best_cost),
            };
            if better {
                best = Some(i);
                best_gain = g;
                best_cost = c;
                best_count = count;
            }
        }
        i += 1;
    }
    match best {
        None => {
            assert forall|j: int| !candidate(view, problem, j) by {
                if candidate(view, problem, j) {
                    assert(0 <= j < problem.processes.len());
                }
            }
            None
        },
        Some(b) => {
            assert forall|j: int| #[trigger] candidate(view, problem, j) implies score(
                problem.processes[j],
                problem.objectives,
            ) < score(problem.processes[b as int], problem.objectives) || (score(
                problem.processes[j],
                problem.objectives,
            ) == score(problem.processes[b as int], problem.objectives) && b <= j) by {
                assert(0 <= j < problem.processes.len());
            }
            proof {
                assert(chosen(view, problem, b as int));
                let c = choose|i: int| chosen(view, problem, i);
                lemma_chosen_unique(view, problem, b as int, c);
            }
            run.fire(data, b, best_count, data.processes[b].time);
            Some(b)
        },
    }
}

/// A step on a run without a candidate changes nothing, and so does every step after it.
pub proof fn lemma_greedy_rests(data: DataView, steps: nat, later: nat)
    requires
        steps <= later,
        forall|i: int| !candidate(greedy(data, steps), data, i),
    ensures
        greedy(data, later) == greedy(data, steps),
    decreases later - steps,
{
    if steps < later {
        lemma_greedy_rests(data, steps, (later - 1) as nat);
    }
}

/// Runs the scheme from the initial stocks of `data`. The budget is polled
/// before each step, and the scheme ends when a poll finds it spent or when
/// no process is a candidate. Returns the problem with the stocks that the
/// schedule leaves, the elapsed time, and the log of the firings: those of
/// the run after as many steps as polls found the budget unspent.
pub fn sgs_algorithm(data: Data, budget: &mut Budget) -> (r: (Data, u64, Vec<(String, u64, u64)>))
    ensures
        verdict(data@, expand(log_view(r.2@)), r.0@.stocks) == Ok::<(), Fault>(()),
        r.0@.processes == data@.processes,
        r.0@.objectives == data@.objectives,
        r.1 == greedy(data@, polls_used(old(budget), final(budget))).time,
        log_view(r.2@) == greedy(data@, polls_used(old(budget), final(budget))).log,
        r.0@.stocks == settled(greedy(data@, polls_used(old(budget), final(budget))).tick),
        final(budget).was_spent() || forall|i: int|
            !candidate(greedy(data@, polls_used(old(budget), final(budget))), data@, i),
        final(budget).remaining() <= old(budget).remaining(),
        old(budget).was_spent() ==> final(budget).remaining() == old(budget).remaining(),
{
    let mut run = Run::start(&data);
    let ghost before = budget.remaining();
    loop
        invariant_except_break
            run@ == greedy(data@, (before - budget.remaining()) as nat),
        invariant
            follows(run@, data@),
            before == old(budget).remaining(),
            budget.remaining() <= before,
            old(budget).was_spent() ==> budget.was_spent() && budget.remaining() == before,
        ensures
            run@ == greedy(data@, polls_used(old(budget), &*budget)),
            budget.was_spent() || forall|i: int| !candidate(run@, data@, i),
            budget.remaining() <= before,
            old(budget).was_spent() ==> budget.remaining() == before,
        decreases budget.remaining(),
    {
        let ghost made = (before - budget.remaining()) as nat;
        if budget.spent() {
            break ;
        }
        match sgs_step(&mut run, &data) {
            None => {
                proof {
                    lemma_greedy_rests(data@, made, made + 1);
                }
                break ;
            },
            Some(_) => {},
        }
    }
    let (time, stocks, log) = run.into_result(&data);
    let mut data = data;
    data.stocks = stocks;
    (data, time, log)
}

} // verus!
