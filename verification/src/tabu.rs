//! Tabu search: from the current schedule, each process fired as often as it
//! can fire at once gives a neighbour; the best neighbour whose stocks were
//! not visited lately is taken, and the best schedule seen is kept.

use crate::budget::{polls_used, Budget};
use crate::ledger::{lemma_arrive_settled, opening, settled};
use crate::model::{
    apply, can_apply, execute, fits_after, lemma_largest_exists, max_feasible_runs,
    max_runs, names_view, tally, Data, DataView,
};
use crate::replay::{verdict, Fault};
use crate::run::{expand, fired, follows, initial_run, log_view, Run, RunView};
use crate::sgs::{batch, candidate};
use crate::stocks::{quantity, Stocks};
use std::collections::VecDeque;
use vstd::prelude::*;

verus! {

/// Process `i` can fire at least once on the stocks of the problem, and its
/// largest firing leaves stocks within the machine's range.
pub open spec fn has_neighbor(data: DataView, i: int) -> bool {
    &&& 0 <= i < data.processes.len()
    &&& max_feasible_runs(data.stocks, data.processes[i].inputs) >= 1
    &&& fits_after(
        data.stocks,
        data.processes[i],
        max_feasible_runs(data.stocks, data.processes[i].inputs),
    )
}

/// The problem after process `i` has fired as often as it can fire at once.
pub open spec fn neighbor(data: DataView, i: int) -> DataView {
    DataView {
        stocks: apply(
            data.stocks,
            data.processes[i],
            max_feasible_runs(data.stocks, data.processes[i].inputs),
        ),
        processes: data.processes,
        objectives: data.objectives,
    }
}

/// The neighbours that the first `upto` processes give, in the order of the
/// processes, each with the duration of its process.
pub open spec fn neighbors(data: DataView, upto: int) -> Seq<(DataView, nat)>
    decreases upto,
{
    if upto <= 0 {
        Seq::empty()
    } else if has_neighbor(data, upto - 1) {
        neighbors(data, upto - 1).push(
            (neighbor(data, upto - 1), data.processes[upto - 1].duration),
        )
    } else {
        neighbors(data, upto - 1)
    }
}

/// A list of neighbours as plain values.
pub open spec fn neighbors_view(list: Seq<(Data, u64)>) -> Seq<(DataView, nat)> {
    Seq::new(list.len(), |i: int| (list[i].0@, list[i].1 as nat))
}

/// The neighbours of a problem: for each process that can fire, the problem
/// after its largest firing, and the duration of the process.
pub fn generate_neighbors(data: &Data) -> (list: Vec<(Data, u64)>)
    ensures
        neighbors_view(list@) == neighbors(data@, data@.processes.len() as int),
{
    let mut list: Vec<(Data, u64)> = Vec::new();
    let mut i: usize = 0;
    assert(neighbors_view(list@) =~= neighbors(data@, 0));
    while i < data.processes.len()
        invariant
            i <= data.processes@.len(),
            neighbors_view(list@) == neighbors(data@, i as int),
        decreases data.processes@.len() - i,
    {
        let process = &data.processes[i];
        assert(data@.processes[i as int] == process@);
        let count = max_runs(&data.stocks, &process.input);
        let ghost before = neighbors_view(list@);
        proof {
            if count > 0 {
                lemma_largest_exists(data@.stocks, process@.inputs);
            }
        }
        if count > 0 && can_apply(&data.stocks, process, count) {
            let mut next = data.duplicate();
            execute(&mut next, process, count);
            assert(next@ == neighbor(data@, i as int));
            list.push((next, process.time));
            assert(neighbors_view(list@) =~= before.push(
                (neighbor(data@, i as int), process@.duration),
            ));
        }
        i += 1;
    }
    list
}

/// The neighbours of a problem do not dwindle when its stocks grow: a process
/// that has a neighbour has one on the larger stocks, from a firing that is
/// no smaller, and the list is no shorter. This holds where the larger
/// firings leave stocks within the machine's range.
pub proof fn lemma_neighbors_grow(small: DataView, large: DataView, n: int)
    requires
        small.processes == large.processes,
        forall|k: Seq<char>| quantity(small.stocks, k) <= quantity(large.stocks, k),
        0 <= n <= small.processes.len(),
        forall|i: int|
            0 <= i < n && has_neighbor(small, i) ==> fits_after(
                large.stocks,
                (#[trigger] large.processes[i]),
                max_feasible_runs(large.stocks, large.processes[i].inputs),
            ),
    ensures
        forall|i: int|
            0 <= i < n && has_neighbor(small, i) ==> has_neighbor(large, i) && max_feasible_runs(
                small.stocks,
                (#[trigger] small.processes[i]).inputs,
            ) <= max_feasible_runs(large.stocks, large.processes[i].inputs),
        neighbors(small, n).len() <= neighbors(large, n).len(),
    decreases n,
{
    if n > 0 {
        lemma_neighbors_grow(small, large, n - 1);
        crate::model::lemma_max_feasible_runs_monotonic(
            small.stocks,
            large.stocks,
            small.processes[n - 1].inputs,
        );
        if has_neighbor(small, n - 1) {
            assert(fits_after(
                large.stocks,
                large.processes[n - 1],
                max_feasible_runs(large.stocks, large.processes[n - 1].inputs),
            ));
        }
        assert forall|i: int| 0 <= i < n && has_neighbor(small, i) implies has_neighbor(
            large,
            i,
        ) && max_feasible_runs(small.stocks, (#[trigger] small.processes[i]).inputs)
            <= max_feasible_runs(large.stocks, large.processes[i].inputs) by {
            if i == n - 1 {
            }
        }
    }
}

/// A list of snapshots as plain values.
pub open spec fn snapshots_view(list: Seq<Stocks>) -> Seq<Map<Seq<char>, nat>> {
    Seq::new(list.len(), |i: int| list[i]@)
}

/// Whether `list` holds a snapshot equal to `stocks`.
pub fn holds_snapshot(list: &VecDeque<Stocks>, stocks: &Stocks) -> (b: bool)
    ensures
        b == snapshots_view(list@).contains(stocks@),
{
    let ghost view = snapshots_view(list@);
    let mut i: usize = 0;
    while i < list.len()
        invariant
            i <= list@.len(),
            view == snapshots_view(list@),
            forall|j: int| 0 <= j < i ==> view[j] != stocks@,
        decreases list@.len() - i,
    {
        if list[i].same_as(stocks) {
            assert(view[i as int] == stocks@);
            return true;
        }
        i += 1;
    }
    false
}

/// A move of the search: the process fired, and the run it leads to.
pub struct Move {
    pub index: usize,
    pub run: Run,
}

/// A list of moves as plain values.
pub open spec fn moves_view(list: Seq<Move>) -> Seq<(int, RunView)> {
    Seq::new(list.len(), |x: int| (list[x].index as int, list[x].run@))
}

/// The run after process `i` has fired as often as it can fire at once and
/// let its duration pass once.
pub open spec fn hop(run: RunView, data: DataView, i: int) -> RunView {
    fired(run, data.processes[i], batch(run, data, i), data.processes[i].duration)
}

/// The moves from `run` that the first `upto` processes give: for each
/// candidate, in the order of the processes, its place and the run it leads to.
pub open spec fn hops(run: RunView, data: DataView, upto: int) -> Seq<(int, RunView)>
    decreases upto,
{
    if upto <= 0 {
        Seq::empty()
    } else if candidate(run, data, upto - 1) {
        hops(run, data, upto - 1).push((upto - 1, hop(run, data, upto - 1)))
    } else {
        hops(run, data, upto - 1)
    }
}

/// The moves from `run`: each process that can fire its batch, fired.
pub fn moves(run: &Run, data: &Data) -> (list: Vec<Move>)
    ensures
        moves_view(list@) == hops(run@, data@, data@.processes.len() as int),
        follows(run@, data@) ==> forall|x: int|
            0 <= x < list@.len() ==> follows((#[trigger] list@[x]).run@, data@),
{
    let mut list: Vec<Move> = Vec::new();
    let mut i: usize = 0;
    assert(moves_view(list@) =~= hops(run@, data@, 0));
    while i < data.processes.len()
        invariant
            i <= data.processes@.len(),
            moves_view(list@) == hops(run@, data@, i as int),
            follows(run@, data@) ==> forall|x: int|
                0 <= x < list@.len() ==> follows((#[trigger] list@[x]).run@, data@),
        decreases data.processes@.len() - i,
    {
        let process = &data.processes[i];
        assert(data@.processes[i as int] == process@);
        let count = run.max_runs(process);
        let ghost before = moves_view(list@);
        if run.can_fire(data, i, count, process.time) {
            let mut next = run.duplicate();
            next.fire(data, i, count, process.time);
            list.push(Move { index: i, run: next });
            assert(moves_view(list@) =~= before.push((i as int, hop(run@, data@, i as int))));
        }
        i += 1;
    }
    list
}

/// One move is better than another: a higher tally, or the same tally in less time.
pub open spec fn preferred(tally_a: nat, time_a: nat, tally_b: nat, time_b: nat) -> bool {
    tally_a > tally_b || (tally_a == tally_b && time_a < time_b)
}

/// The tally of the stocks that move `x` leaves.
pub open spec fn move_tally(list: Seq<(int, RunView)>, objectives: Seq<Seq<char>>, x: int) -> nat {
    tally(settled(list[x].1.tick), objectives)
}

/// Move `x` leaves stocks that are not on the tabu list.
pub open spec fn admissible(
    list: Seq<(int, RunView)>,
    tabu: Seq<Map<Seq<char>, nat>>,
    x: int,
) -> bool {
    0 <= x < list.len() && !tabu.contains(settled(list[x].1.tick))
}

/// Move `x` is the one to take: admissible, no admissible move better, and
/// the first of those.
pub open spec fn picked(
    list: Seq<(int, RunView)>,
    tabu: Seq<Map<Seq<char>, nat>>,
    objectives: Seq<Seq<char>>,
    x: int,
) -> bool {
    &&& admissible(list, tabu, x)
    &&& forall|y: int| #[trigger]
        admissible(list, tabu, y) ==> !preferred(
            move_tally(list, objectives, y),
            list[y].1.time,
            move_tally(list, objectives, x),
            list[x].1.time,
        ) && (y < x ==> preferred(
            move_tally(list, objectives, x),
            list[x].1.time,
            move_tally(list, objectives, y),
            list[y].1.time,
        ))
}

/// The place of the move to take: the best admissible one, and the first of
/// several; the first move of all where none is admissible; none where there
/// is no move.
pub open spec fn pick(
    list: Seq<(int, RunView)>,
    tabu: Seq<Map<Seq<char>, nat>>,
    objectives: Seq<Seq<char>>,
) -> Option<int> {
    if list.len() == 0 {
        None
    } else if exists|x: int| picked(list, tabu, objectives, x) {
        Some(choose|x: int| picked(list, tabu, objectives, x))
    } else {
        Some(0)
    }
}

/// At most one move is the one to take.
pub proof fn lemma_picked_unique(
    list: Seq<(int, RunView)>,
    tabu: Seq<Map<Seq<char>, nat>>,
    objectives: Seq<Seq<char>>,
    x: int,
    y: int,
)
    requires
        picked(list, tabu, objectives, x),
        picked(list, tabu, objectives, y),
    ensures
        x == y,
{
    assert(admissible(list, tabu, x));
    assert(admissible(list, tabu, y));
}

/// Picks the move to take.
pub fn pick_move(list: &Vec<Move>, tabu: &VecDeque<Stocks>, objectives: &Vec<String>) -> (r: Option<
    usize,
>)
    ensures
        match r {
            Some(x) => pick(
                moves_view(list@),
                snapshots_view(tabu@),
                names_view(objectives@),
            ) == Some(x as int) && x < list@.len(),
            None => pick(moves_view(list@), snapshots_view(tabu@), names_view(objectives@))
                is None,
        },
{
    let ghost views = moves_view(list@);
    let ghost banned = snapshots_view(tabu@);
    let ghost names = names_view(objectives@);
    let mut best: Option<usize> = None;
    let mut best_tally: u128 = 0;
    let mut best_time: u64 = 0;
    let mut i: usize = 0;
    while i < list.len()
        invariant
            i <= list@.len(),
            views == moves_view(list@),
            banned == snapshots_view(tabu@),
            names == names_view(objectives@),
            best is None ==> forall|y: int| 0 <= y < i ==> !admissible(views, banned, y),
            best is Some ==> {
                &&& best->0 < i
                &&& admissible(views, banned, best->0 as int)
                &&& best_tally == move_tally(views, names, best->0 as int)
                &&& best_time == views[best->0 as int].1.time
                &&& forall|y: int|
                    0 <= y < i && #[trigger] admissible(views, banned, y) ==> !preferred(
                        move_tally(views, names, y),
                        views[y].1.time,
                        best_tally as nat,
                        best_time as nat,
                    ) && (y < best->0 ==> preferred(
                        best_tally as nat,
                        best_time as nat,
                        move_tally(views, names, y),
                        views[y].1.time,
                    ))
            },
        decreases list@.len() - i,
    {
        assert(views[i as int].1 == list@[i as int].run@);
        let stocks = list[i].run.stocks();
        if !holds_snapshot(tabu, &stocks) {
            let value = list[i].run.tally(objectives);
            let time = list[i].run.time();
            let better = match best {
                None => true,
                Some(_) => value > best_tally || (value == best_tally && time < best_time),
            };
            if better {
                best = Some(i);
                best_tally = value;
                best_time = time;
            }
        }
        i += 1;
    }
    match best {
        Some(x) => {
            proof {
                assert(picked(views, banned, names, x as int));
                let c = choose|c: int| picked(views, banned, names, c);
                lemma_picked_unique(views, banned, names, x as int, c);
            }
            Some(x)
        },
        None => {
            proof {
                assert forall|y: int| !picked(views, banned, names, y) by {
                    if picked(views, banned, names, y) {
                        assert(admissible(views, banned, y));
                    }
                }
            }
            if list.len() > 0 {
                Some(0)
            } else {
                None
            }
        },
    }
}

/// The state of the search as plain values: the run it stands at, the best
/// run seen, and the stocks that are tabu, the oldest first.
pub struct TabuView {
    pub current: RunView,
    pub best: RunView,
    pub tabu: Seq<Map<Seq<char>, nat>>,
}

/// The state after one iteration: the picked move is taken, the run it leads
/// to becomes the best one if it has a higher tally than the best, or the
/// same tally in less time, and its stocks become tabu, at the cost of the
/// oldest where more than `size` are tabu. Without a move the state stays.
pub open spec fn tabu_step(s: TabuView, data: DataView, size: nat) -> TabuView {
    let list = hops(s.current, data, data.processes.len() as int);
    match pick(list, s.tabu, data.objectives) {
        None => s,
        Some(x) => {
            let next = list[x].1;
            let longer = s.tabu.push(settled(next.tick));
            TabuView {
                current: next,
                best: if preferred(
                    tally(settled(next.tick), data.objectives),
                    next.time,
                    tally(settled(s.best.tick), data.objectives),
                    s.best.time,
                ) {
                    next
                } else {
                    s.best
                },
                tabu: if longer.len() > size {
                    longer.drop_first()
                } else {
                    longer
                },
            }
        },
    }
}

/// The state after `steps` iterations from the initial stocks.
pub open spec fn tabu_walk(data: DataView, size: nat, steps: nat) -> TabuView
    decreases steps,
{
    if steps == 0 {
        TabuView { current: initial_run(data), best: initial_run(data), tabu: Seq::empty() }
    } else {
        tabu_step(tabu_walk(data, size, (steps - 1) as nat), data, size)
    }
}

/// Every move is that of a candidate, and leads where the hop of that
/// candidate leads.
pub proof fn lemma_hops_are_candidates(run: RunView, data: DataView, upto: int, x: int)
    requires
        0 <= x < hops(run, data, upto).len(),
    ensures
        candidate(run, data, hops(run, data, upto)[x].0),
        hops(run, data, upto)[x].1 == hop(run, data, hops(run, data, upto)[x].0),
    decreases upto,
{
    if upto > 0 {
        let rest = hops(run, data, upto - 1);
        if x < rest.len() {
            lemma_hops_are_candidates(run, data, upto - 1, x);
        }
    }
}

/// Where no process gives out an objective, no iteration finds a better run
/// than the initial one: the best run stays the initial run, with the initial
/// stocks at time 0.
pub proof fn lemma_tabu_without_producer(data: DataView, size: nat, steps: nat)
    requires
        crate::model::bounded(data.stocks),
        forall|i: int|
            0 <= i < data.objectives.len() ==> crate::replay::never_made(
                data.processes,
                #[trigger] data.objectives[i],
            ),
    ensures
        tabu_walk(data, size, steps).best == initial_run(data),
        follows(tabu_walk(data, size, steps).current, data),
        settled(tabu_walk(data, size, steps).best.tick) == data.stocks,
        tabu_walk(data, size, steps).best.time == 0,
    decreases steps,
{
    crate::run::lemma_initial_run_follows(data);
    lemma_arrive_settled(opening(data.stocks), 0);
    assert(settled(opening(data.stocks)) =~= data.stocks);
    if steps > 0 {
        lemma_tabu_without_producer(data, size, (steps - 1) as nat);
        let s = tabu_walk(data, size, (steps - 1) as nat);
        let list = hops(s.current, data, data.processes.len() as int);
        match pick(list, s.tabu, data.objectives) {
            None => {},
            Some(x) => {
                if exists|y: int| picked(list, s.tabu, data.objectives, y) {
                    assert(admissible(list, s.tabu, x));
                }
                lemma_hops_are_candidates(s.current, data, data.processes.len() as int, x);
                let i = list[x].0;
                let next = list[x].1;
                crate::run::lemma_fired_follows(
                    s.current,
                    data,
                    i,
                    batch(s.current, data, i),
                    data.processes[i].duration,
                );
                crate::run::lemma_followed_run_is_accepted(next, data);
                crate::replay::lemma_no_producer_no_gain(
                    data,
                    expand(next.log),
                    settled(next.tick),
                );
            },
        }
    }
}

/// A state without a move stays as it is, whatever the number of iterations.
pub proof fn lemma_tabu_rests(data: DataView, size: nat, steps: nat, later: nat)
    requires
        steps <= later,
        hops(
            tabu_walk(data, size, steps).current,
            data,
            data.processes.len() as int,
        ).len() == 0,
    ensures
        tabu_walk(data, size, later) == tabu_walk(data, size, steps),
    decreases later - steps,
{
    if steps < later {
        lemma_tabu_rests(data, size, steps, (later - 1) as nat);
    }
}

/// Searches from the initial stocks of `data`, iteration by iteration. The
/// budget is polled before each iteration, and the search ends when a poll
/// finds it spent, after `max_iterations` iterations, or when no process can
/// fire. The stocks of the last `tabu_list_size` runs are tabu. Returns the
/// problem with the stocks of the best run seen, its elapsed time and its
/// log: those of the state after as many iterations as polls found the budget
/// unspent. Each move lets the duration of its process pass once.
pub fn tabu_search(data: &Data, max_iterations: usize, tabu_list_size: usize, budget: &mut Budget) -> (r:
    (Data, u64, Vec<(String, u64, u64)>))
    ensures
        verdict(data@, expand(log_view(r.2@)), r.0@.stocks) == Ok::<(), Fault>(()),
        r.0@.processes == data@.processes,
        r.0@.objectives == data@.objectives,
        tally(r.0@.stocks, data@.objectives) >= tally(data@.stocks, data@.objectives),
        r.1 == tabu_walk(
            data@,
            tabu_list_size as nat,
            polls_used(old(budget), final(budget)),
        ).best.time,
        r.0@.stocks == settled(
            tabu_walk(data@, tabu_list_size as nat, polls_used(old(budget), final(budget))).best.tick,
        ),
        log_view(r.2@) == tabu_walk(
            data@,
            tabu_list_size as nat,
            polls_used(old(budget), final(budget)),
        ).best.log,
        final(budget).was_spent() || polls_used(old(budget), final(budget)) == max_iterations || hops(
            tabu_walk(
                data@,
                tabu_list_size as nat,
                polls_used(old(budget), final(budget)),
            ).current,
            data@,
            data@.processes.len() as int,
        ).len() == 0,
        final(budget).remaining() <= old(budget).remaining(),
        old(budget).was_spent() ==> final(budget).remaining() == old(budget).remaining(),
{
    let mut current = Run::start(data);
    let mut best = current.duplicate();
    let mut best_tally = best.tally(&data.objectives);
    let ghost size = tabu_list_size as nat;
    let ghost before = budget.remaining();
    proof {
        lemma_arrive_settled(opening(data@.stocks), 0);
        assert(settled(opening(data@.stocks)) =~= data@.stocks);
    }
    let mut tabu: VecDeque<Stocks> = VecDeque::new();
    let mut iterations: usize = 0;
    assert(snapshots_view(tabu@) =~= Seq::<Map<Seq<char>, nat>>::empty());
    while iterations < max_iterations
        invariant_except_break
            iterations == before - budget.remaining(),
            (TabuView { current: current@, best: best@, tabu: snapshots_view(tabu@) })
                == tabu_walk(data@, size, iterations as nat),
        invariant
            follows(current@, data@),
            follows(best@, data@),
            size == tabu_list_size as nat,
            before == old(budget).remaining(),
            budget.remaining() <= before,
            best_tally == tally(settled(best@.tick), data@.objectives),
            best_tally >= tally(data@.stocks, data@.objectives),
            iterations <= max_iterations,
            old(budget).was_spent() ==> budget.was_spent() && budget.remaining() == before,
        ensures
            budget.remaining() <= before,
            old(budget).was_spent() ==> budget.remaining() == before,
            (TabuView { current: current@, best: best@, tabu: snapshots_view(tabu@) })
                == tabu_walk(data@, size, polls_used(old(budget), &*budget)),
            budget.was_spent() || polls_used(old(budget), &*budget) == max_iterations || hops(
                current@,
                data@,
                data@.processes.len() as int,
            ).len() == 0,
        decreases max_iterations - iterations,
    {
        let ghost state = TabuView { current: current@, best: best@, tabu: snapshots_view(tabu@) };
        if budget.spent() {
            break ;
        }
        let mut list = moves(&current, data);
        let ghost views = moves_view(list@);
        match pick_move(&list, &tabu, &data.objectives) {
            None => {
                proof {
                    lemma_tabu_rests(data@, size, iterations as nat, (iterations + 1) as nat);
                }
                break ;
            },
            Some(x) => {
                let taken = list.swap_remove(x);
                assert(taken.run@ == views[x as int].1);
                current = taken.run;
                let value = current.tally(&data.objectives);
                if value > best_tally || (value == best_tally && current.time() < best.time()) {
                    best = current.duplicate();
                    best_tally = value;
                }
            },
        }
        let ghost held = snapshots_view(tabu@);
        tabu.push_back(current.stocks());
        assert(snapshots_view(tabu@) =~= held.push(settled(current@.tick)));
        if tabu.len() > tabu_list_size {
            let ghost longer = snapshots_view(tabu@);
            let _ = tabu.pop_front();
            assert(snapshots_view(tabu@) =~= longer.drop_first());
        }
        iterations += 1;
        proof {
            assert((TabuView { current: current@, best: best@, tabu: snapshots_view(tabu@) })
                == tabu_step(state, data@, size));
        }
    }
    let (time, stocks, log) = best.into_result(data);
    let mut found = data.duplicate();
    found.stocks = stocks;
    (found, time, log)
}

} // verus!
