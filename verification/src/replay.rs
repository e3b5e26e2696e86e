//! The replay check: a claimed schedule is run against the problem, firing by
//! firing, and what it leaves is held against the claimed final stocks.

use crate::ledger::{
    arrive, fire, fits, lemma_arrive_settled, lemma_merge_empty, lemma_settled_fire, opening,
    settled, Ledger, Tick,
};
use crate::model::{
    amounts_view, feasible, first_short, first_shortage, need, need_of, processes_view, tally,
    Data, DataView, Process, ProcessView,
};
use crate::stocks::{quantity, Stocks};
use vstd::prelude::*;

verus! {

/// One run of one process, as a schedule claims it.
#[derive(Debug)]
pub struct Execution {
    pub time: u64,
    pub process_name: String,
}

/// A claimed run as plain values.
pub struct Firing {
    pub time: nat,
    pub name: Seq<char>,
}

impl View for Execution {
    type V = Firing;

    open spec fn view(&self) -> Firing {
        Firing { time: self.time as nat, name: self.process_name@ }
    }
}

/// A claimed schedule as plain values.
pub open spec fn trace_view(list: Seq<Execution>) -> Seq<Firing> {
    Seq::new(list.len(), |i: int| list[i]@)
}

/// Some process carries the name.
pub open spec fn known(procs: Seq<ProcessView>, name: Seq<char>) -> bool {
    exists|i: int| 0 <= i < procs.len() && (#[trigger] procs[i]).id == name
}

/// Position `i` is the first whose process carries the name.
pub open spec fn first_named_at(procs: Seq<ProcessView>, name: Seq<char>, i: int) -> bool {
    &&& 0 <= i < procs.len()
    &&& procs[i].id == name
    &&& forall|j: int| 0 <= j < i ==> (#[trigger] procs[j]).id != name
}

/// The first position whose process carries the name.
pub open spec fn first_named(procs: Seq<ProcessView>, name: Seq<char>) -> int {
    choose|i: int| first_named_at(procs, name, i)
}

/// Why a claimed schedule is refused, as plain values.
pub enum Fault {
    /// A firing names no process of the problem.
    ProcessNotFound { name: Seq<char>, time: nat },
    /// A firing needs more of a stock than its tick began with, less what the
    /// tick has taken so far.
    NotEnoughStock { process: Seq<char>, time: nat, stock: Seq<char>, needed: nat, available: nat },
    /// A firing leaves more of a stock than the machine can count.
    QuantityOverflow { process: Seq<char>, time: nat },
    /// The schedule leaves other stocks than it claims.
    FinalMismatch { expected: Map<Seq<char>, nat>, found: Map<Seq<char>, nat> },
}

/// Why a claimed schedule is refused.
#[derive(Debug)]
pub enum CheckError {
    ProcessNotFound { name: String, time: u64 },
    NotEnoughStock { process: String, time: u64, stock: String, needed: u128, available: u64 },
    QuantityOverflow { process: String, time: u64 },
    FinalMismatch { expected: Stocks, found: Stocks },
}

impl View for CheckError {
    type V = Fault;

    open spec fn view(&self) -> Fault {
        match self {
            CheckError::ProcessNotFound { name, time } => Fault::ProcessNotFound {
                name: name@,
                time: *time as nat,
            },
            CheckError::NotEnoughStock { process, time, stock, needed, available } => {
                Fault::NotEnoughStock {
                    process: process@,
                    time: *time as nat,
                    stock: stock@,
                    needed: *needed as nat,
                    available: *available as nat,
                }
            },
            CheckError::QuantityOverflow { process, time } => Fault::QuantityOverflow {
                process: process@,
                time: *time as nat,
            },
            CheckError::FinalMismatch { expected, found } => Fault::FinalMismatch {
                expected: expected@,
                found: found@,
            },
        }
    }
}

/// The account after one claimed run, or why the run is refused. The run
/// draws on the visible stocks alone: what its own tick has produced waits.
pub open spec fn step(s: Tick, procs: Seq<ProcessView>, e: Firing) -> Result<Tick, Fault> {
    let at = arrive(s, e.time);
    if !known(procs, e.name) {
        Err(Fault::ProcessNotFound { name: e.name, time: e.time })
    } else {
        let p = procs[first_named(procs, e.name)];
        if !feasible(at.visible, p.inputs, 1) {
            let stock = p.inputs[first_short(at.visible, p.inputs, 1)].0;
            Err(
                Fault::NotEnoughStock {
                    process: p.id,
                    time: e.time,
                    stock,
                    needed: need(p.inputs, stock),
                    available: quantity(at.visible, stock),
                },
            )
        } else if !fits(fire(at, p, 1)) {
            Err(Fault::QuantityOverflow { process: p.id, time: e.time })
        } else {
            Ok(fire(at, p, 1))
        }
    }
}

/// The account after a claimed schedule, or the first reason to refuse it.
pub open spec fn replay(s: Tick, procs: Seq<ProcessView>, trace: Seq<Firing>) -> Result<
    Tick,
    Fault,
>
    decreases trace.len(),
{
    if trace.len() == 0 {
        Ok(s)
    } else {
        match replay(s, procs, trace.drop_last()) {
            Err(fault) => Err(fault),
            Ok(before) => step(before, procs, trace.last()),
        }
    }
}

/// The outcome of the check: the schedule replays, and leaves exactly the
/// claimed stocks, key set and quantities.
pub open spec fn verdict(data: DataView, trace: Seq<Firing>, claimed: Map<Seq<char>, nat>) -> Result<
    (),
    Fault,
> {
    match replay(opening(data.stocks), data.processes, trace) {
        Err(fault) => Err(fault),
        Ok(end) => if settled(end) == claimed {
            Ok(())
        } else {
            Err(Fault::FinalMismatch { expected: claimed, found: settled(end) })
        },
    }
}

/// A schedule that a prefix of it already refuses is refused for the same reason.
pub proof fn lemma_replay_prefix_error(
    s: Tick,
    procs: Seq<ProcessView>,
    trace: Seq<Firing>,
    i: int,
)
    requires
        0 <= i <= trace.len(),
        replay(s, procs, trace.take(i)) is Err,
    ensures
        replay(s, procs, trace) == replay(s, procs, trace.take(i)),
    decreases trace.len() - i,
{
    if i == trace.len() {
        assert(trace.take(i) =~= trace);
    } else {
        assert(trace.take(i + 1).drop_last() =~= trace.take(i));
        lemma_replay_prefix_error(s, procs, trace, i + 1);
    }
}

/// The empty schedule is accepted with the initial stocks as its final stocks.
pub proof fn lemma_empty_schedule_accepted(data: DataView)
    ensures
        verdict(data, Seq::<Firing>::empty(), data.stocks) == Ok::<(), Fault>(()),
{
    lemma_merge_empty(data.stocks);
}

/// Same-tick isolation: a run within the current tick whose inputs the visible
/// stocks do not cover is refused, whatever its tick has produced so far.
pub proof fn lemma_same_tick_isolation(s: Tick, procs: Seq<ProcessView>, e: Firing)
    requires
        s.clock == Some(e.time),
        known(procs, e.name),
        !feasible(s.visible, procs[first_named(procs, e.name)].inputs, 1),
    ensures
        step(s, procs, e) is Err,
        step(s, procs, e)->Err_0 is NotEnoughStock,
{
}

/// No process gives out stock `k`.
pub open spec fn never_made(procs: Seq<ProcessView>, k: Seq<char>) -> bool {
    forall|i: int| 0 <= i < procs.len() ==> need((#[trigger] procs[i]).outputs, k) == 0
}

/// A schedule that replays leaves no more of a stock that no process gives
/// out than there was of it.
pub proof fn lemma_replay_makes_nothing(
    start: Tick,
    procs: Seq<ProcessView>,
    trace: Seq<Firing>,
    k: Seq<char>,
)
    requires
        never_made(procs, k),
        replay(start, procs, trace) is Ok,
    ensures
        quantity(settled(replay(start, procs, trace)->Ok_0), k) <= quantity(settled(start), k),
    decreases trace.len(),
{
    if trace.len() > 0 {
        lemma_replay_makes_nothing(start, procs, trace.drop_last(), k);
        let before = replay(start, procs, trace.drop_last())->Ok_0;
        let e = trace.last();
        let at = arrive(before, e.time);
        lemma_arrive_settled(before, e.time);
        let i = first_named(procs, e.name);
        assert(first_named_at(procs, e.name, i)) by {
            let j = choose|j: int| 0 <= j < procs.len() && (#[trigger] procs[j]).id == e.name;
            lemma_first_named_exists(procs, e.name, j);
        }
        lemma_settled_fire(at, procs[i], 1, k);
        assert(need(procs[i].outputs, k) == 0);
    }
}

/// Where some process carries a name, some process is the first to carry it.
pub proof fn lemma_first_named_exists(procs: Seq<ProcessView>, name: Seq<char>, j: int)
    requires
        0 <= j < procs.len(),
        procs[j].id == name,
    ensures
        first_named_at(procs, name, first_named(procs, name)),
    decreases j,
{
    if forall|i: int| 0 <= i < j ==> (#[trigger] procs[i]).id != name {
        assert(first_named_at(procs, name, j));
    } else {
        let i = choose|i: int| 0 <= i < j && (#[trigger] procs[i]).id == name;
        lemma_first_named_exists(procs, name, i);
    }
}

/// A snapshot that holds no more of any objective than another has no higher tally.
pub proof fn lemma_tally_bound(
    a: Map<Seq<char>, nat>,
    b: Map<Seq<char>, nat>,
    objectives: Seq<Seq<char>>,
)
    requires
        forall|i: int|
            0 <= i < objectives.len() ==> quantity(a, #[trigger] objectives[i]) <= quantity(
                b,
                objectives[i],
            ),
    ensures
        tally(a, objectives) <= tally(b, objectives),
    decreases objectives.len(),
{
    if objectives.len() > 0 {
        let rest = objectives.drop_last();
        assert forall|i: int| 0 <= i < rest.len() implies quantity(a, #[trigger] rest[i])
            <= quantity(b, rest[i]) by {
            assert(rest[i] == objectives[i]);
        }
        lemma_tally_bound(a, b, rest);
        assert(quantity(a, objectives[objectives.len() - 1]) <= quantity(
            b,
            objectives[objectives.len() - 1],
        ));
    }
}

/// A schedule that the check accepts, of a problem whose objectives no
/// process gives out, leaves an objective tally no higher than the initial
/// one: 0 where the problem begins with none of its objectives.
pub proof fn lemma_no_producer_no_gain(
    data: DataView,
    trace: Seq<Firing>,
    claimed: Map<Seq<char>, nat>,
)
    requires
        verdict(data, trace, claimed) == Ok::<(), Fault>(()),
        forall|i: int|
            0 <= i < data.objectives.len() ==> never_made(
                data.processes,
                #[trigger] data.objectives[i],
            ),
    ensures
        tally(claimed, data.objectives) <= tally(data.stocks, data.objectives),
{
    let start = opening(data.stocks);
    assert(settled(start) =~= data.stocks);
    assert forall|i: int| 0 <= i < data.objectives.len() implies quantity(
        claimed,
        #[trigger] data.objectives[i],
    ) <= quantity(data.stocks, data.objectives[i]) by {
        lemma_replay_makes_nothing(start, data.processes, trace, data.objectives[i]);
    }
    lemma_tally_bound(claimed, data.stocks, data.objectives);
}

/// The first process that carries `name`, if any does.
pub fn find_process(processes: &Vec<Process>, name: &String) -> (r: Option<usize>)
    ensures
        r is Some <==> known(processes_view(processes@), name@),
        r is Some ==> r->0 == first_named(processes_view(processes@), name@) && first_named_at(
            processes_view(processes@),
            name@,
            r->0 as int,
        ),
{
    let ghost procs = processes_view(processes@);
    let mut i: usize = 0;
    while i < processes.len()
        invariant
            i <= processes@.len(),
            procs == processes_view(processes@),
            forall|j: int| 0 <= j < i ==> (#[trigger] procs[j]).id != name@,
        decreases processes@.len() - i,
    {
        if processes[i].id == *name {
            proof {
                assert(procs[i as int].id == name@);
                assert(first_named_at(procs, name@, i as int));
                let c = first_named(procs, name@);
                assert(first_named_at(procs, name@, c));
                if c < i {
                    assert(procs[c].id != name@);
                }
            }
            return Some(i);
        }
        i += 1;
    }
    None
}

/// Replays the claimed schedule `executions` on the stocks and processes of
/// `data` and holds what it leaves against `final_stocks`.
pub fn check_execution(data: &Data, executions: &Vec<Execution>, final_stocks: &Stocks) -> (r:
    Result<(), CheckError>)
    ensures
        match r {
            Ok(_) => verdict(data@, trace_view(executions@), final_stocks@) == Ok::<(), Fault>(()),
            Err(e) => verdict(data@, trace_view(executions@), final_stocks@) == Err::<(), Fault>(
                e@,
            ),
        },
{
    let ghost procs = data@.processes;
    let ghost trace = trace_view(executions@);
    let ghost start = opening(data@.stocks);
    let mut ledger = Ledger::open(&data.stocks);
    let mut i: usize = 0;
    while i < executions.len()
        invariant
            i <= executions@.len(),
            procs == data@.processes,
            trace == trace_view(executions@),
            start == opening(data@.stocks),
            replay(start, procs, trace.take(i as int)) == Ok::<Tick, Fault>(ledger@),
        decreases executions@.len() - i,
    {
        let ghost before = ledger@;
        let ghost e = trace[i as int];
        proof {
            use_type_invariant(&ledger);
            ledger.lemma_fits();
            assert(trace.take(i + 1).drop_last() =~= trace.take(i as int));
            assert(replay(start, procs, trace.take(i + 1)) == step(before, procs, e));
            assert(e == executions@[i as int]@);
        }
        ledger.arrive(executions[i].time);
        match find_process(&data.processes, &executions[i].process_name) {
            None => {
                proof {
                    lemma_replay_prefix_error(start, procs, trace, i + 1);
                }
                return Err(
                    CheckError::ProcessNotFound {
                        name: executions[i].process_name.clone(),
                        time: executions[i].time,
                    },
                );
            },
            Some(j) => {
                let process = &data.processes[j];
                assert(procs[j as int] == process@);
                match first_shortage(ledger.visible(), &process.input, 1) {
                    Some(x) => {
                        proof {
                            lemma_replay_prefix_error(start, procs, trace, i + 1);
                            assert(amounts_view(process.input@)[x as int].0 == process.input@[x as int].0@);
                        }
                        return Err(
                            CheckError::NotEnoughStock {
                                process: process.id.clone(),
                                time: executions[i].time,
                                stock: process.input[x].0.clone(),
                                needed: need_of(&process.input, &process.input[x].0),
                                available: ledger.visible().get(&process.input[x].0),
                            },
                        );
                    },
                    None => {
                        if !ledger.can_fit(process, 1) {
                            proof {
                                lemma_replay_prefix_error(start, procs, trace, i + 1);
                            }
                            return Err(
                                CheckError::QuantityOverflow {
                                    process: process.id.clone(),
                                    time: executions[i].time,
                                },
                            );
                        }
                        ledger.fire(process, 1);
                    },
                }
            },
        }
        i += 1;
    }
    proof {
        assert(trace.take(executions@.len() as int) =~= trace);
    }
    let total = ledger.merged();
    if total.same_as(final_stocks) {
        Ok(())
    } else {
        Err(CheckError::FinalMismatch { expected: final_stocks.duplicate(), found: total })
    }
}

} // verus!
