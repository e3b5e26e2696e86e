//! A schedule in progress: the elapsed time, the account of the stocks, and
//! the log of the firings made so far. Every firing goes through `try_fire`,
//! which keeps the log a schedule that the replay check accepts.

use crate::ledger::{
    arrive, fire, fits, lemma_arrive_settled, lemma_settled_fire, opening, settled, Ledger, Tick,
};
use crate::model::{
    can_consume, feasible, lemma_feasible_downward, lemma_need_mentions, max_runs, need,
    max_feasible_runs, names_view, tally, Data, DataView, Process, ProcessView,
};
use crate::replay::{
    find_process, first_named, first_named_at, known, replay, verdict, Fault, Firing,
};
use crate::stocks::{quantity, Stocks};
use vstd::prelude::*;

verus! {

/// A log as plain values: for each record the process name, the count and the start time.
pub open spec fn log_view(log: Seq<(String, u64, u64)>) -> Seq<(Seq<char>, nat, nat)> {
    Seq::new(log.len(), |i: int| (log[i].0@, log[i].1 as nat, log[i].2 as nat))
}

/// `n` runs of one firing.
pub open spec fn repeat(e: Firing, n: nat) -> Seq<Firing> {
    Seq::new(n, |i: int| e)
}

/// The schedule that a log stands for: each record as many single runs as its count says.
pub open spec fn expand(log: Seq<(Seq<char>, nat, nat)>) -> Seq<Firing>
    decreases log.len(),
{
    if log.len() == 0 {
        Seq::empty()
    } else {
        expand(log.drop_last()) + repeat(
            Firing { time: log.last().2, name: log.last().0 },
            log.last().1,
        )
    }
}

/// A schedule in progress as plain values.
pub struct RunView {
    pub time: nat,
    pub tick: Tick,
    pub log: Seq<(Seq<char>, nat, nat)>,
}

/// The run follows the problem: its log replays on the problem without a
/// fault, and leaves the account that the run holds at its elapsed time.
pub open spec fn follows(run: RunView, data: DataView) -> bool {
    &&& fits(run.tick)
    &&& match replay(opening(data.stocks), data.processes, expand(run.log)) {
        Ok(end) => arrive(end, run.time) == run.tick,
        Err(_) => false,
    }
}

/// The objectives ask for the least elapsed time and for no stock: there is
/// an objective, and each is the word `time`.
pub open spec fn minimizes_time(objectives: Seq<Seq<char>>) -> bool {
    objectives.len() > 0 && forall|i: int|
        0 <= i < objectives.len() ==> #[trigger] objectives[i] == "time"@
}

/// The objective value of a run: the elapsed time where the objectives ask
/// for the least time, and else the objective tally of its stocks.
pub open spec fn objective_value(run: RunView, objectives: Seq<Seq<char>>) -> nat {
    if minimizes_time(objectives) {
        run.time
    } else {
        tally(settled(run.tick), objectives)
    }
}

/// The run before any firing.
pub open spec fn initial_run(data: DataView) -> RunView {
    RunView { time: 0, tick: arrive(opening(data.stocks), 0), log: Seq::empty() }
}

/// Whether process `index` of the problem can fire `count` times on the run
/// and let `advance` units of time pass.
pub open spec fn can_fire(run: RunView, data: DataView, index: int, count: nat, advance: nat) -> bool {
    &&& 0 <= index < data.processes.len()
    &&& count >= 1
    &&& run.time + advance <= u64::MAX
    &&& first_named_at(data.processes, data.processes[index].id, index)
    &&& feasible(run.tick.visible, data.processes[index].inputs, count)
    &&& fits(fire(run.tick, data.processes[index], count))
}

/// The run after process `p` has fired `count` times and `advance` units of time have passed.
pub open spec fn fired(run: RunView, p: ProcessView, count: nat, advance: nat) -> RunView {
    RunView {
        time: run.time + advance,
        tick: arrive(fire(run.tick, p, count), run.time + advance),
        log: run.log.push((p.id, count, run.time)),
    }
}

/// Two firings in a row within one tick are one firing of the summed count.
pub proof fn lemma_fire_additive(s: Tick, p: ProcessView, a: nat, b: nat)
    requires
        feasible(s.visible, p.inputs, a + b),
    ensures
        fire(fire(s, p, a), p, b) == fire(s, p, a + b),
{
    let one = fire(s, p, a);
    let two = fire(one, p, b);
    let both = fire(s, p, a + b);
    assert forall|k: Seq<char>| #[trigger] two.visible.dom().contains(k) implies two.visible[k]
        == both.visible[k] by {
        let x = need(p.inputs, k);
        assert((a + b) * x <= quantity(s.visible, k));
        assert((a + b) * x == a * x + b * x) by (nonlinear_arith);
    }
    assert(two.visible =~= both.visible);
    assert forall|k: Seq<char>| #[trigger] two.pending.dom().contains(k) implies two.pending[k]
        == both.pending[k] by {
        let y = need(p.outputs, k);
        assert((a + b) * y == a * y + b * y) by (nonlinear_arith);
        lemma_need_mentions(p.outputs, k);
    }
    assert(two.pending =~= both.pending);
}

/// An account that fits before and after a firing fits after any smaller firing.
pub proof fn lemma_fits_between(s: Tick, p: ProcessView, u: nat, n: nat)
    requires
        fits(s),
        fits(fire(s, p, n)),
        feasible(s.visible, p.inputs, n),
        u <= n,
    ensures
        fits(fire(s, p, u)),
{
    assert forall|k: Seq<char>| #[trigger] quantity(settled(fire(s, p, u)), k) <= u64::MAX by {
        let x = need(p.inputs, k);
        let y = need(p.outputs, k);
        let v = quantity(s.visible, k);
        let w = quantity(s.pending, k);
        assert(quantity(settled(s), k) <= u64::MAX);
        assert(quantity(settled(fire(s, p, n)), k) <= u64::MAX);
        assert(n * x <= v);
        assert(u * x <= n * x) by (nonlinear_arith)
            requires
                u <= n,
                x >= 0,
        ;
        lemma_feasible_downward(s.visible, p.inputs, n, u);
        lemma_settled_fire(s, p, n, k);
        lemma_settled_fire(s, p, u, k);
        assert(quantity(settled(s), k) == v + w);
        assert(u * y - u * x <= 0 || u * y - u * x <= n * y - n * x) by (nonlinear_arith)
            requires
                0 <= u <= n,
                x >= 0,
                y >= 0,
        ;
    }
}

/// A schedule that ends in `upto` runs of one firing replays as one firing of
/// count `upto` within the tick of that firing.
pub proof fn lemma_replay_repeat(
    start: Tick,
    procs: Seq<ProcessView>,
    prefix: Seq<Firing>,
    e: Firing,
    index: int,
    n: nat,
    upto: nat,
)
    requires
        replay(start, procs, prefix) is Ok,
        first_named_at(procs, e.name, index),
        feasible(arrive(replay(start, procs, prefix)->Ok_0, e.time).visible, procs[index].inputs, n),
        fits(arrive(replay(start, procs, prefix)->Ok_0, e.time)),
        fits(fire(arrive(replay(start, procs, prefix)->Ok_0, e.time), procs[index], n)),
        1 <= upto <= n,
    ensures
        replay(start, procs, prefix + repeat(e, upto)) == Ok::<Tick, Fault>(
            fire(arrive(replay(start, procs, prefix)->Ok_0, e.time), procs[index], upto),
        ),
    decreases upto,
{
    let base = arrive(replay(start, procs, prefix)->Ok_0, e.time);
    let p = procs[index];
    let whole = prefix + repeat(e, upto);
    assert(known(procs, e.name));
    assert(first_named(procs, e.name) == index) by {
        let c = first_named(procs, e.name);
        assert(first_named_at(procs, e.name, c));
        if c < index {
            assert(procs[c].id != e.name);
        }
        if index < c {
            assert(procs[index].id != e.name);
        }
    }
    assert(whole.last() == e);
    lemma_fits_between(base, p, upto, n);
    if upto == 1 {
        assert(whole.drop_last() =~= prefix);
        lemma_feasible_downward(base.visible, p.inputs, n, 1);
    } else {
        let u = (upto - 1) as nat;
        assert(whole.drop_last() =~= prefix + repeat(e, u));
        lemma_replay_repeat(start, procs, prefix, e, index, n, u);
        let mid = fire(base, p, u);
        assert(arrive(mid, e.time) == mid);
        lemma_feasible_downward(base.visible, p.inputs, n, upto);
        lemma_fire_additive(base, p, u, 1);
        assert forall|k: Seq<char>| 1 * #[trigger] need(p.inputs, k) <= quantity(mid.visible, k) by {
            let x = need(p.inputs, k);
            assert(upto * x <= quantity(base.visible, k));
            assert(upto * x == u * x + x) by (nonlinear_arith)
                requires
                    upto == u + 1,
            ;
        }
    }
}

/// A run that follows its problem passes the replay check: its log, run by
/// run, is accepted with the stocks that the run holds as the final stocks.
pub proof fn lemma_followed_run_is_accepted(run: RunView, data: DataView)
    requires
        follows(run, data),
    ensures
        verdict(data, expand(run.log), settled(run.tick)) == Ok::<(), Fault>(()),
{
    let end = replay(opening(data.stocks), data.processes, expand(run.log))->Ok_0;
    lemma_arrive_settled(end, run.time);
}

/// The run before any firing follows its problem.
pub proof fn lemma_initial_run_follows(data: DataView)
    requires
        crate::model::bounded(data.stocks),
    ensures
        follows(initial_run(data), data),
{
    let s = opening(data.stocks);
    lemma_arrive_settled(s, 0);
    lemma_arrive_settled(arrive(s, 0), 0);
    assert(settled(s) =~= data.stocks);
    assert forall|k: Seq<char>| #[trigger] quantity(settled(arrive(s, 0)), k) <= u64::MAX by {
        assert(quantity(data.stocks, k) <= u64::MAX);
    }
}

/// A firing that can be made keeps the run following its problem.
pub proof fn lemma_fired_follows(
    run: RunView,
    data: DataView,
    index: int,
    count: nat,
    advance: nat,
)
    requires
        follows(run, data),
        can_fire(run, data, index, count, advance),
    ensures
        follows(fired(run, data.processes[index], count, advance), data),
{
    let p = data.processes[index];
    let start = opening(data.stocks);
    let e = Firing { time: run.time, name: p.id };
    let end = replay(start, data.processes, expand(run.log))->Ok_0;
    let after = fired(run, p, count, advance);
    assert(after.log.drop_last() =~= run.log);
    assert(expand(after.log) == expand(run.log) + repeat(e, count));
    lemma_replay_repeat(start, data.processes, expand(run.log), e, index, count, count);
    lemma_arrive_settled(fire(run.tick, p, count), after.time);
}

/// A schedule in progress.
pub struct Run {
    ledger: Ledger,
    time: u64,
    log: Vec<(String, u64, u64)>,
}

impl View for Run {
    type V = RunView;

    closed spec fn view(&self) -> RunView {
        RunView { time: self.time as nat, tick: self.ledger@, log: log_view(self.log@) }
    }
}

impl Run {
    /// The run before any firing.
    pub fn start(data: &Data) -> (run: Run)
        ensures
            run@ == initial_run(data@),
            follows(run@, data@),
    {
        let mut ledger = Ledger::open(&data.stocks);
        ledger.arrive(0);
        let run = Run { ledger, time: 0, log: Vec::new() };
        proof {
            assert(run@.log =~= Seq::empty());
            assert forall|k: Seq<char>| #[trigger] quantity(data@.stocks, k) <= u64::MAX by {
                data.stocks.lemma_bounded(k);
            }
            lemma_initial_run_follows(data@);
        }
        run
    }

    /// The elapsed time.
    pub fn time(&self) -> (t: u64)
        ensures
            t == self@.time,
    {
        self.time
    }

    /// The log of the firings made so far: process name, count, start time.
    pub fn log(&self) -> (log: &Vec<(String, u64, u64)>)
        ensures
            log_view(log@) == self@.log,
    {
        &self.log
    }

    /// The stocks that a firing can draw on now.
    pub fn visible(&self) -> (stocks: &Stocks)
        ensures
            stocks@ == self@.tick.visible,
    {
        self.ledger.visible()
    }

    /// All the stocks of the run, those that wait for the clock included.
    pub fn stocks(&self) -> (stocks: Stocks)
        ensures
            stocks@ == settled(self@.tick),
            fits(self@.tick),
    {
        proof {
            use_type_invariant(&self.ledger);
            self.ledger.lemma_fits();
        }
        self.ledger.merged()
    }

    /// The largest count at which `process` can fire on the run now.
    pub fn max_runs(&self, process: &Process) -> (n: u64)
        ensures
            n == max_feasible_runs(self@.tick.visible, process@.inputs),
    {
        max_runs(self.ledger.visible(), &process.input)
    }

    /// The objective tally of the run: what its stocks hold of the objective names, summed.
    pub fn tally(&self, objectives: &Vec<String>) -> (total: u128)
        ensures
            total == tally(settled(self@.tick), names_view(objectives@)),
    {
        proof {
            use_type_invariant(&self.ledger);
            self.ledger.lemma_fits();
        }
        let ghost names = names_view(objectives@);
        let ghost all = settled(self@.tick);
        let mut total: u128 = 0;
        let mut i: usize = 0;
        while i < objectives.len()
            invariant
                i <= objectives@.len(),
                names == names_view(objectives@),
                all == settled(self@.tick),
                total == tally(all, names.take(i as int)),
                total <= i * u64::MAX,
                fits(self@.tick),
            decreases objectives@.len() - i,
        {
            proof {
                assert(names.take(i + 1).drop_last() =~= names.take(i as int));
                assert((i + 1) * u64::MAX <= u128::MAX) by (nonlinear_arith)
                    requires
                        i < 0x1_0000_0000_0000_0000,
                ;
                assert(quantity(all, names[i as int]) <= u64::MAX);
            }
            let seen = self.ledger.visible().get(&objectives[i]) as u128;
            let waiting = self.ledger.pending().get(&objectives[i]) as u128;
            total = total + seen + waiting;
            i += 1;
        }
        proof {
            assert(names.take(objectives@.len() as int) =~= names);
        }
        total
    }

    /// The objective value of the run: the elapsed time where the objectives
    /// ask for the least time, and else the objective tally.
    pub fn objective_value(&self, objectives: &Vec<String>) -> (value: u128)
        ensures
            value == objective_value(self@, names_view(objectives@)),
    {
        let ghost names = names_view(objectives@);
        let word = "time".to_owned();
        let mut only_time = objectives.len() > 0;
        let mut i: usize = 0;
        while i < objectives.len()
            invariant
                i <= objectives@.len(),
                names == names_view(objectives@),
                word@ == "time"@,
                only_time == (objectives@.len() > 0 && forall|j: int|
                    0 <= j < i ==> #[trigger] names[j] == "time"@),
            decreases objectives@.len() - i,
        {
            assert(names[i as int] == objectives@[i as int]@);
            if !(objectives[i] == word) {
                only_time = false;
            }
            i += 1;
        }
        if only_time {
            self.time as u128
        } else {
            self.tally(objectives)
        }
    }

    /// A copy of the run.
    pub fn duplicate(&self) -> (copy: Run)
        ensures
            copy@ == self@,
    {
        let mut log: Vec<(String, u64, u64)> = Vec::new();
        let mut i: usize = 0;
        while i < self.log.len()
            invariant
                i <= self.log@.len(),
                log@.len() == i,
                forall|j: int|
                    0 <= j < i ==> (#[trigger] log@[j]).0@ == self.log@[j].0@ && log@[j].1
                        == self.log@[j].1 && log@[j].2 == self.log@[j].2,
            decreases self.log@.len() - i,
        {
            log.push((self.log[i].0.clone(), self.log[i].1, self.log[i].2));
            i += 1;
        }
        assert(log_view(log@) =~= log_view(self.log@));
        Run { ledger: self.ledger.duplicate(), time: self.time, log }
    }

    /// Whether two runs stand at the same time with the same account.
    pub fn same_state(&self, other: &Run) -> (b: bool)
        ensures
            b <==> (self@.time == other@.time && self@.tick == other@.tick),
    {
        self.time == other.time && self.ledger.same_as(&other.ledger)
    }

    /// Whether process `index` of `data` can fire `count` times on the run
    /// and let `advance` units of time pass.
    pub fn can_fire(&self, data: &Data, index: usize, count: u64, advance: u64) -> (b: bool)
        ensures
            b == can_fire(self@, data@, index as int, count as nat, advance as nat),
    {
        if index >= data.processes.len() || count == 0 || advance > u64::MAX - self.time {
            return false;
        }
        let process = &data.processes[index];
        assert(data@.processes[index as int] == process@);
        match find_process(&data.processes, &process.id) {
            Some(j) => {
                if j != index {
                    proof {
                        let c = first_named(data@.processes, process@.id);
                        if first_named_at(data@.processes, process@.id, index as int) {
                            if c < index {
                                assert(data@.processes[c].id != process@.id);
                            }
                        }
                    }
                    return false;
                }
            },
            None => {
                return false;
            },
        }
        if !can_consume(self.ledger.visible(), &process.input, count) {
            return false;
        }
        self.ledger.can_fit(process, count)
    }

    /// Fires process `index` of `data` `count` times at the elapsed time and
    /// lets `advance` units of time pass. A run that follows `data` goes on
    /// following it.
    pub fn fire(&mut self, data: &Data, index: usize, count: u64, advance: u64)
        requires
            can_fire(old(self)@, data@, index as int, count as nat, advance as nat),
        ensures
            final(self)@ == fired(
                old(self)@,
                data@.processes[index as int],
                count as nat,
                advance as nat,
            ),
            follows(old(self)@, data@) ==> follows(final(self)@, data@),
    {
        let process = &data.processes[index];
        assert(data@.processes[index as int] == process@);
        proof {
            if follows(self@, data@) {
                lemma_fired_follows(self@, data@, index as int, count as nat, advance as nat);
            }
        }
        let ghost before = self@;
        self.ledger.fire(process, count);
        self.log.push((process.id.clone(), count, self.time));
        self.time = self.time + advance;
        self.ledger.arrive(self.time);
        proof {
            assert(self@.log =~= before.log.push((process@.id, count as nat, before.time)));
        }
    }

    /// Fires process `index` of `data` `count` times at the elapsed time and
    /// lets `advance` units of time pass, if that can be done; else leaves the
    /// run as it is. A run that follows `data` goes on following it.
    pub fn try_fire(&mut self, data: &Data, index: usize, count: u64, advance: u64) -> (done: bool)
        ensures
            done == can_fire(old(self)@, data@, index as int, count as nat, advance as nat),
            done ==> final(self)@ == fired(
                old(self)@,
                data@.processes[index as int],
                count as nat,
                advance as nat,
            ),
            !done ==> final(self)@ == old(self)@,
            follows(old(self)@, data@) ==> follows(final(self)@, data@),
    {
        if self.can_fire(data, index, count, advance) {
            self.fire(data, index, count, advance);
            true
        } else {
            false
        }
    }

    /// The elapsed time, the stocks and the log of the run. Of a run that
    /// follows `data` the log passes the replay check with those stocks.
    pub fn into_result(self, data: &Data) -> (r: (u64, Stocks, Vec<(String, u64, u64)>))
        ensures
            r.0 == self@.time,
            r.1@ == settled(self@.tick),
            log_view(r.2@) == self@.log,
            follows(self@, data@) ==> verdict(data@, expand(log_view(r.2@)), r.1@) == Ok::<
                (),
                Fault,
            >(()),
    {
        proof {
            if follows(self@, data@) {
                lemma_followed_run_is_accepted(self@, data@);
            }
        }
        let stocks = self.ledger.merged();
        (self.time, stocks, self.log)
    }
}

} // verus!
