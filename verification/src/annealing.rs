//! Simulated annealing, the part that makes a neighbour: from the current
//! schedule a process is picked at random among those that can fire, and
//! fired a random number of times in a row.

use crate::chance::{pick_below, pick_between};
use crate::model::{max_feasible_runs, Data, DataView};
use crate::run::{can_fire, fired, follows, Run, RunView};
use rand::rngs::ThreadRng;
use vstd::prelude::*;

verus! {

/// The run after process `i` has tried to fire once and let its duration pass.
pub open spec fn applied(run: RunView, data: DataView, i: int) -> RunView {
    if can_fire(run, data, i, 1, data.processes[i].duration) {
        fired(run, data.processes[i], 1, data.processes[i].duration)
    } else {
        run
    }
}

/// The run after process `i` has fired once, `times` times in a row, ending
/// at the first firing that cannot be made.
pub open spec fn applied_times(run: RunView, data: DataView, i: int, times: nat) -> RunView
    decreases times,
{
    if times == 0 {
        run
    } else {
        let before = applied_times(run, data, i, (times - 1) as nat);
        applied(before, data, i)
    }
}

/// Fires process `index` once on `run` and lets its duration pass, if that
/// can be done.
pub fn apply_process(run: &mut Run, data: &Data, index: usize) -> (done: bool)
    ensures
        follows(old(run)@, data@) ==> follows(final(run)@, data@),
        final(run)@ == applied(old(run)@, data@, index as int),
        done == can_fire(old(run)@, data@, index as int, 1, data@.processes[index as int].duration),
{
    if index >= data.processes.len() {
        return false;
    }
    assert(data@.processes[index as int] == data.processes@[index as int]@);
    run.try_fire(data, index, 1, data.processes[index].time)
}

/// The places of the processes that can fire at least once on `run`, each
/// with the most times it can fire at once.
pub fn feasible_processes(run: &Run, data: &Data) -> (list: Vec<(usize, u64)>)
    ensures
        forall|x: int|
            0 <= x < list@.len() ==> (#[trigger] list@[x]).0 < data@.processes.len() && list@[x].1
                >= 1 && list@[x].1 == max_feasible_runs(
                run@.tick.visible,
                data@.processes[list@[x].0 as int].inputs,
            ),
        forall|x: int, y: int|
            0 <= x < y < list@.len() ==> (#[trigger] list@[x]).0 < (#[trigger] list@[y]).0,
        forall|i: int|
            0 <= i < data@.processes.len() && max_feasible_runs(
                run@.tick.visible,
                (#[trigger] data@.processes[i]).inputs,
            ) >= 1 ==> exists|x: int| 0 <= x < list@.len() && (#[trigger] list@[x]).0 == i,
{
    let mut list: Vec<(usize, u64)> = Vec::new();
    let mut i: usize = 0;
    while i < data.processes.len()
        invariant
            i <= data.processes@.len(),
            forall|x: int|
                0 <= x < list@.len() ==> (#[trigger] list@[x]).0 < i && list@[x].1 >= 1
                    && list@[x].1 == max_feasible_runs(
                    run@.tick.visible,
                    data@.processes[list@[x].0 as int].inputs,
                ),
            forall|x: int, y: int|
                0 <= x < y < list@.len() ==> (#[trigger] list@[x]).0 < (#[trigger] list@[y]).0,
            forall|j: int|
                0 <= j < i && max_feasible_runs(
                    run@.tick.visible,
                    (#[trigger] data@.processes[j]).inputs,
                ) >= 1 ==> exists|x: int| 0 <= x < list@.len() && (#[trigger] list@[x]).0 == j,
        decreases data.processes@.len() - i,
    {
        let process = &data.processes[i];
        assert(data@.processes[i as int] == process@);
        let most = run.max_runs(process);
        let ghost held = list@;
        if most > 0 {
            list.push((i, most));
        }
        proof {
            assert forall|j: int|
                0 <= j < i + 1 && max_feasible_runs(
                    run@.tick.visible,
                    (#[trigger] data@.processes[j]).inputs,
                ) >= 1 implies exists|x: int|
                0 <= x < list@.len() && (#[trigger] list@[x]).0 == j by {
                if j < i {
                    let x = choose|x: int| 0 <= x < held.len() && (#[trigger] held[x]).0 == j;
                    assert(list@[x].0 == j);
                } else {
                    assert(list@[held.len() as int].0 == j);
                }
            }
        }
        i += 1;
    }
    list
}

/// A neighbour of `run`: one of the processes that can fire, picked at
/// random, fires once, a random number of times in a row between 1 and the
/// most times it can fire, ending at the first firing that cannot be made.
/// Where no process can fire the neighbour is the run itself.
pub fn random_neighbor(run: &Run, data: &Data, rng: &mut ThreadRng) -> (next: Run)
    ensures
        follows(run@, data@) ==> follows(next@, data@),
        (forall|i: int|
            0 <= i < data@.processes.len() ==> max_feasible_runs(
                run@.tick.visible,
                (#[trigger] data@.processes[i]).inputs,
            ) == 0) ==> next@ == run@,
        (exists|i: int|
            0 <= i < data@.processes.len() && max_feasible_runs(
                run@.tick.visible,
                (#[trigger] data@.processes[i]).inputs,
            ) >= 1) ==> exists|i: int, times: nat|
            0 <= i < data@.processes.len() && 1 <= times <= max_feasible_runs(
                run@.tick.visible,
                data@.processes[i].inputs,
            ) && next@ == #[trigger] applied_times(run@, data@, i, times),
{
    let mut next = run.duplicate();
    let list = feasible_processes(run, data);
    if list.len() == 0 {
        return next;
    }
    let pick = pick_below(rng, list.len());
    let index = list[pick].0;
    let times = pick_between(rng, 1, list[pick].1);
    assert(max_feasible_runs(run@.tick.visible, data@.processes[index as int].inputs) >= 1);
    let mut done: u64 = 0;
    while done < times
        invariant
            done <= times,
            times >= 1,
            index < data@.processes.len(),
            follows(run@, data@) ==> follows(next@, data@),
            next@ == applied_times(run@, data@, index as int, done as nat),
        ensures
            1 <= done <= times,
        decreases times - done,
    {
        let fired = apply_process(&mut next, data, index);
        done += 1;
        if !fired {
            break ;
        }
    }
    assert(next@ == applied_times(run@, data@, index as int, done as nat));
    next
}

} // verus!
