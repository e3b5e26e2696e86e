//! Ant colony optimization, the part of one ant: step by step a process is
//! drawn by its weight from those that can fire, and fired at a random count.
//! The weights stand for the pheromone of the colony, which the caller keeps.

use crate::budget::Budget;
use crate::chance::pick_between;
use crate::ledger::settled;
use crate::model::{max_feasible_runs, names_view, tally, tally_of, Data, DataView};
use crate::run::{can_fire, fired, follows, Run, RunView};
use crate::stocks::Stocks;
use rand::rngs::ThreadRng;
use vstd::prelude::*;

verus! {

/// The most steps that one ant makes.
pub const MAX_STEPS: u64 = 50;

/// The most steps in a row that an ant makes without a gain in the objective tally.
pub const STALL_LIMIT: u64 = 5;

/// A process that an ant can draw: its place among the processes, the most
/// times it can fire at once, and the end of its share of the wheel.
pub struct Draw {
    pub index: usize,
    pub most: u64,
    pub upto: u64,
}

/// Process `i` can be drawn: it can fire at least once, and has a weight.
pub open spec fn drawable(run: RunView, data: DataView, weights: Seq<u64>, i: int) -> bool {
    &&& 0 <= i < data.processes.len()
    &&& i < weights.len()
    &&& weights[i] > 0
    &&& max_feasible_runs(run.tick.visible, data.processes[i].inputs) >= 1
}

/// The sum of the weights of the drawable ones among the first `upto`
/// processes, as far as the machine can count: where the share of the last of
/// them ends on the wheel.
pub open spec fn share_end(run: RunView, data: DataView, weights: Seq<u64>, upto: int) -> nat
    decreases upto,
{
    if upto <= 0 {
        0
    } else if drawable(run, data, weights, upto - 1) {
        let sum = share_end(run, data, weights, upto - 1) + weights[upto - 1];
        if sum > u64::MAX {
            u64::MAX as nat
        } else {
            sum as nat
        }
    } else {
        share_end(run, data, weights, upto - 1)
    }
}

/// The draws are the drawable processes in their order, each with the most
/// times it can fire; the share of each is as wide as its weight and begins
/// where the share before it ends.
pub open spec fn wheel_of(wheel: Seq<Draw>, run: RunView, data: DataView, weights: Seq<u64>) -> bool {
    &&& forall|x: int|
        0 <= x < wheel.len() ==> drawable(run, data, weights, (#[trigger] wheel[x]).index as int)
            && wheel[x].most == max_feasible_runs(
            run.tick.visible,
            data.processes[wheel[x].index as int].inputs,
        ) && wheel[x].upto > 0 && wheel[x].upto == share_end(
            run,
            data,
            weights,
            wheel[x].index + 1,
        )
    &&& forall|x: int, y: int|
        0 <= x < y < wheel.len() ==> (#[trigger] wheel[x]).index < (#[trigger] wheel[y]).index
            && wheel[x].upto <= wheel[y].upto
    &&& forall|i: int| #[trigger]
        drawable(run, data, weights, i) ==> exists|x: int|
            0 <= x < wheel.len() && (#[trigger] wheel[x]).index == i
}

/// The objective tally of a snapshot.
pub fn evaluate_objective(objectives: &Vec<String>, stocks: &Stocks) -> (score: u128)
    ensures
        score == tally(stocks@, names_view(objectives@)),
{
    tally_of(stocks, objectives)
}

/// The wheel for the next step of an ant: every process that can fire and has
/// a weight gets a share as wide as its weight, as far as the machine can
/// count the shares.
pub fn build_wheel(run: &Run, data: &Data, weights: &Vec<u64>) -> (wheel: Vec<Draw>)
    ensures
        wheel_of(wheel@, run@, data@, weights@),
{
    let mut wheel: Vec<Draw> = Vec::new();
    let mut total: u64 = 0;
    let mut i: usize = 0;
    while i < data.processes.len()
        invariant
            i <= data.processes@.len(),
            forall|x: int|
                0 <= x < wheel@.len() ==> drawable(
                    run@,
                    data@,
                    weights@,
                    (#[trigger] wheel@[x]).index as int,
                ) && wheel@[x].most == max_feasible_runs(
                    run@.tick.visible,
                    data@.processes[wheel@[x].index as int].inputs,
                ) && wheel@[x].upto > 0 && wheel@[x].index < i && wheel@[x].upto <= total
                    && wheel@[x].upto == share_end(run@, data@, weights@, wheel@[x].index + 1),
            total == share_end(run@, data@, weights@, i as int),
            forall|x: int, y: int|
                0 <= x < y < wheel@.len() ==> (#[trigger] wheel@[x]).index < (
                #[trigger] wheel@[y]).index && wheel@[x].upto <= wheel@[y].upto,
            forall|j: int|
                0 <= j < i && #[trigger] drawable(run@, data@, weights@, j) ==> exists|x: int|
                    0 <= x < wheel@.len() && (#[trigger] wheel@[x]).index == j,
        decreases data.processes@.len() - i,
    {
        let process = &data.processes[i];
        assert(data@.processes[i as int] == process@);
        let ghost held = wheel@;
        if i < weights.len() && weights[i] > 0 {
            let most = run.max_runs(process);
            if most > 0 {
                total = if weights[i] > u64::MAX - total {
                    u64::MAX
                } else {
                    total + weights[i]
                };
                wheel.push(Draw { index: i, most, upto: total });
            }
        }
        proof {
            assert forall|j: int|
                0 <= j < i + 1 && #[trigger] drawable(run@, data@, weights@, j) implies exists|
                x: int,
            |
                0 <= x < wheel@.len() && (#[trigger] wheel@[x]).index == j by {
                if j < i {
                    let x = choose|x: int| 0 <= x < held.len() && (#[trigger] held[x]).index == j;
                    assert(wheel@[x].index == j);
                } else {
                    assert(wheel@[held.len() as int].index == j);
                }
            }
        }
        i += 1;
    }
    proof {
        assert forall|j: int| #[trigger] drawable(run@, data@, weights@, j) implies exists|x: int|
            0 <= x < wheel@.len() && (#[trigger] wheel@[x]).index == j by {
            assert(0 <= j < data@.processes.len());
        }
    }
    wheel
}

/// The draw on whose share of the wheel `chosen` falls: the first whose share
/// ends beyond it.
pub fn spin(wheel: &Vec<Draw>, chosen: u64) -> (x: usize)
    requires
        wheel@.len() > 0,
        chosen < wheel@.last().upto,
    ensures
        x < wheel@.len(),
        chosen < wheel@[x as int].upto,
        forall|y: int| 0 <= y < x ==> (#[trigger] wheel@[y]).upto <= chosen,
{
    let mut x: usize = 0;
    while x < wheel.len() - 1 && wheel[x].upto <= chosen
        invariant
            x < wheel@.len(),
            chosen < wheel@.last().upto,
            forall|y: int| 0 <= y < x ==> (#[trigger] wheel@[y]).upto <= chosen,
        decreases wheel@.len() - x,
    {
        x += 1;
    }
    x
}

/// Draws the next process of an ant and the count at which it fires: a
/// drawable process, by its share of the wheel, and a count from 1 up to the
/// most times that the process can fire. None where no process is drawable.
pub fn select_next_process(run: &Run, data: &Data, weights: &Vec<u64>, rng: &mut ThreadRng) -> (r:
    Option<(usize, u64)>)
    ensures
        r is None <==> forall|i: int| !drawable(run@, data@, weights@, i),
        match r {
            Some(pick) => drawable(run@, data@, weights@, pick.0 as int) && 1 <= pick.1
                <= max_feasible_runs(run@.tick.visible, data@.processes[pick.0 as int].inputs),
            None => true,
        },
{
    let wheel = build_wheel(run, data, weights);
    if wheel.len() == 0 {
        assert forall|i: int| !drawable(run@, data@, weights@, i) by {
            if drawable(run@, data@, weights@, i) {
                let x = choose|x: int| 0 <= x < wheel@.len() && (#[trigger] wheel@[x]).index == i;
            }
        }
        return None;
    }
    let total = wheel[wheel.len() - 1].upto;
    let chosen = pick_between(rng, 0, total - 1);
    let x = spin(&wheel, chosen);
    let count = pick_between(rng, 1, wheel[x].most);
    assert(drawable(run@, data@, weights@, wheel@[x as int].index as int));
    Some((wheel[x].index, count))
}

/// An ant on its path: its run, the firings it has made as place of the
/// process and count, the steps it has made, how many of the last in a row
/// brought no gain, and the objective tally after the last.
pub struct Ant {
    pub run: Run,
    pub used: Vec<(usize, u64)>,
    pub steps: u64,
    pub stalled: u64,
    pub last_score: u128,
}

/// An ant as plain values.
pub struct AntView {
    pub run: RunView,
    pub used: Seq<(usize, u64)>,
    pub steps: nat,
    pub stalled: nat,
    pub last_score: nat,
}

impl View for Ant {
    type V = AntView;

    open spec fn view(&self) -> AntView {
        AntView {
            run: self.run@,
            used: self.used@,
            steps: self.steps as nat,
            stalled: self.stalled as nat,
            last_score: self.last_score as nat,
        }
    }
}

/// The ant has made all its steps, or too many in a row without a gain.
pub open spec fn rests(ant: AntView) -> bool {
    ant.steps >= MAX_STEPS || ant.stalled > STALL_LIMIT
}

/// The ant after the firing `pick`, which lets the duration of its process
/// pass once: one step more, and one more without a gain unless the
/// objective tally has grown. None where the firing cannot be made.
pub open spec fn stepped_ant(ant: AntView, data: DataView, pick: (usize, u64)) -> Option<AntView> {
    let index = pick.0 as int;
    if can_fire(ant.run, data, index, pick.1 as nat, data.processes[index].duration) {
        let run = fired(ant.run, data.processes[index], pick.1 as nat, data.processes[index].duration);
        let score = tally(settled(run.tick), data.objectives);
        Some(
            AntView {
                run,
                used: ant.used.push(pick),
                steps: ant.steps + 1,
                stalled: if score <= ant.last_score {
                    ant.stalled + 1
                } else {
                    0
                },
                last_score: score,
            },
        )
    } else {
        None
    }
}

/// The firings that the ant has made are those of its log.
pub open spec fn logged(ant: AntView, data: DataView) -> bool {
    &&& ant.used.len() == ant.run.log.len()
    &&& ant.used.len() <= ant.steps
    &&& ant.stalled <= ant.steps
    &&& forall|x: int|
        0 <= x < ant.used.len() ==> (#[trigger] ant.used[x]).0 < data.processes.len()
            && ant.run.log[x].0 == data.processes[ant.used[x].0 as int].id && ant.run.log[x].1
            == ant.used[x].1
}

impl Ant {
    /// An ant at the initial stocks of `data`.
    pub fn start(data: &Data) -> (ant: Ant)
        ensures
            ant@ == (AntView {
                run: crate::run::initial_run(data@),
                used: Seq::empty(),
                steps: 0,
                stalled: 0,
                last_score: 0,
            }),
            follows(ant@.run, data@),
            logged(ant@, data@),
    {
        Ant { run: Run::start(data), used: Vec::new(), steps: 0, stalled: 0, last_score: 0 }
    }

    /// Whether the ant has made all its steps, or too many in a row without a gain.
    pub fn rests(&self) -> (b: bool)
        ensures
            b == rests(self@),
    {
        self.steps >= MAX_STEPS || self.stalled > STALL_LIMIT
    }

    /// Makes the firing `pick`, if it can be made; else leaves the ant as it is.
    pub fn advance(&mut self, data: &Data, pick: (usize, u64)) -> (made: bool)
        requires
            !rests(old(self)@),
        ensures
            match stepped_ant(old(self)@, data@, pick) {
                Some(ant) => made && final(self)@ == ant,
                None => !made && final(self)@ == old(self)@,
            },
            follows(old(self)@.run, data@) ==> follows(final(self)@.run, data@),
            logged(old(self)@, data@) ==> logged(final(self)@, data@),
    {
        if pick.0 >= data.processes.len() {
            return false;
        }
        assert(data@.processes[pick.0 as int] == data.processes@[pick.0 as int]@);
        let ghost before = self@;
        if !self.run.try_fire(data, pick.0, pick.1, data.processes[pick.0].time) {
            return false;
        }
        self.used.push(pick);
        self.steps = self.steps + 1;
        let score = self.run.tally(&data.objectives);
        if score <= self.last_score {
            self.stalled = self.stalled + 1;
        } else {
            self.stalled = 0;
        }
        self.last_score = score;
        proof {
            if logged(before, data@) {
                assert forall|x: int| 0 <= x < self@.used.len() implies (#[trigger] self@.used[x]).0
                    < data@.processes.len() && self@.run.log[x].0
                    == data@.processes[self@.used[x].0 as int].id && self@.run.log[x].1
                    == self@.used[x].1 by {
                    if x < before.used.len() {
                        assert(self@.used[x] == before.used[x]);
                        assert(self@.run.log[x] == before.run.log[x]);
                    }
                }
            }
        }
        true
    }
}

/// The ant at the initial stocks.
pub open spec fn fresh_ant(data: DataView) -> AntView {
    AntView {
        run: crate::run::initial_run(data),
        used: Seq::empty(),
        steps: 0,
        stalled: 0,
        last_score: 0,
    }
}

/// The ant after the firings `picks`, each made by an ant that does not rest;
/// none where one of them cannot be made.
pub open spec fn trail(data: DataView, picks: Seq<(usize, u64)>) -> Option<AntView>
    decreases picks.len(),
{
    if picks.len() == 0 {
        Some(fresh_ant(data))
    } else {
        match trail(data, picks.drop_last()) {
            Some(ant) => if rests(ant) {
                None
            } else {
                stepped_ant(ant, data, picks.last())
            },
            None => None,
        }
    }
}

/// Why an ant stops: it rests, nothing can be drawn, or what can be drawn
/// includes a firing that cannot be made.
pub open spec fn halted(ant: AntView, data: DataView, weights: Seq<u64>) -> bool {
    ||| rests(ant)
    ||| forall|i: int| !drawable(ant.run, data, weights, i)
    ||| exists|pick: (usize, u64)|
        drawable(ant.run, data, weights, pick.0 as int) && 1 <= pick.1 <= max_feasible_runs(
            ant.run.tick.visible,
            data.processes[pick.0 as int].inputs,
        ) && #[trigger] stepped_ant(ant, data, pick) is None
}

/// The path of one ant: from the initial stocks, process after process is
/// drawn and fired, each firing letting the duration of its process pass
/// once. The budget is polled before each step. The ant stops when it rests,
/// when nothing can be drawn or the drawn firing cannot be made, or when a
/// poll finds the budget spent. Returns the run of the ant and, for each
/// firing, the place of the process and the count.
pub fn construct_solution(data: &Data, weights: &Vec<u64>, rng: &mut ThreadRng, budget: &mut Budget) -> (r:
    (Run, Vec<(usize, u64)>))
    ensures
        follows(r.0@, data@),
        r.1@.len() == r.0@.log.len(),
        r.1@.len() <= MAX_STEPS,
        forall|x: int|
            0 <= x < r.1@.len() ==> (#[trigger] r.1@[x]).0 < data@.processes.len() && r.0@.log[x].0
                == data@.processes[r.1@[x].0 as int].id && r.0@.log[x].1 == r.1@[x].1,
        trail(data@, r.1@) is Some,
        trail(data@, r.1@)->0.run == r.0@,
        final(budget).was_spent() || halted(trail(data@, r.1@)->0, data@, weights@),
        final(budget).remaining() <= old(budget).remaining(),
        old(budget).was_spent() ==> final(budget).remaining() == old(budget).remaining(),
{
    let mut ant = Ant::start(data);
    let ghost before = budget.remaining();
    while !ant.rests()
        invariant
            follows(ant@.run, data@),
            logged(ant@, data@),
            ant@.steps <= MAX_STEPS,
            trail(data@, ant@.used) == Some(ant@),
            before == old(budget).remaining(),
            budget.remaining() <= before,
            old(budget).was_spent() ==> budget.was_spent() && budget.remaining() == before,
        ensures
            budget.was_spent() || halted(ant@, data@, weights@),
            budget.remaining() <= before,
            old(budget).was_spent() ==> budget.remaining() == before,
        decreases MAX_STEPS - ant@.steps,
    {
        if budget.spent() {
            break ;
        }
        let ghost held = ant@;
        match select_next_process(&ant.run, data, weights, rng) {
            None => {
                break ;
            },
            Some(pick) => {
                if !ant.advance(data, pick) {
                    assert(stepped_ant(held, data@, pick) is None);
                    break ;
                }
                proof {
                    assert(ant@.used.drop_last() =~= held.used);
                }
            },
        }
    }
    (ant.run, ant.used)
}

/// The objective tally, the elapsed time and the stocks of the run of an ant.
pub fn evaluate_solution(data: &Data, run: &Run) -> (r: (u128, u64, Stocks))
    ensures
        r.0 == tally(settled(run@.tick), data@.objectives),
        r.1 == run@.time,
        r.2@ == settled(run@.tick),
{
    (run.tally(&data.objectives), run.time(), run.stocks())
}

} // verus!
