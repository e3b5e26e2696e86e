//! The heuristic estimate: a score for each stock that leads to an objective,
//! the higher the fewer processes lie between the stock and the objective.

use crate::model::{mentions, names_view, Data, DataView, Process, ProcessView};
use crate::sgs::names_contain;
use crate::stocks::Stocks;
use vstd::prelude::*;

verus! {

/// Stock `k` feeds stock `x`: some process takes `k` in and gives `x` out.
pub open spec fn feeds(procs: Seq<ProcessView>, k: Seq<char>, x: Seq<char>) -> bool {
    exists|i: int|
        0 <= i < procs.len() && mentions((#[trigger] procs[i]).inputs, k) && mentions(
            procs[i].outputs,
            x,
        )
}

/// Stock `k` is within `d` processes of an objective.
pub open spec fn within(data: DataView, k: Seq<char>, d: nat) -> bool
    decreases d,
{
    if d == 0 {
        data.objectives.contains(k)
    } else {
        within(data, k, (d - 1) as nat) || exists|x: Seq<char>|
            #[trigger] feeds(data.processes, k, x) && within(data, x, (d - 1) as nat)
    }
}

/// Stock `k` is `d` processes from an objective, and no fewer.
pub open spec fn at_distance(data: DataView, k: Seq<char>, d: nat) -> bool {
    within(data, k, d) && (d == 0 || !within(data, k, (d - 1) as nat))
}

/// The number of input pairs of all the processes: no stock that leads to an
/// objective is sought farther from it.
pub open spec fn depth_limit(procs: Seq<ProcessView>) -> nat
    decreases procs.len(),
{
    if procs.len() == 0 {
        0
    } else {
        depth_limit(procs.drop_last()) + procs.last().inputs.len()
    }
}

/// The score of a stock `d` processes from an objective, where `top` is the
/// score of the objectives.
pub open spec fn score_at(top: nat, d: nat) -> nat {
    if d <= top {
        (top - d) as nat
    } else {
        0
    }
}

/// The process gives out a stock of `level`.
pub open spec fn gives_into(p: ProcessView, level: Seq<Seq<char>>) -> bool {
    exists|o: int| 0 <= o < p.outputs.len() && level.contains((#[trigger] p.outputs[o]).0)
}

/// Stock `k` is an input of a process that gives out a stock of `level`, at a
/// place before input `t` of process `j`.
pub open spec fn found(
    procs: Seq<ProcessView>,
    level: Seq<Seq<char>>,
    k: Seq<char>,
    j: int,
    t: int,
) -> bool {
    exists|i: int, at: int|
        0 <= i < procs.len() && 0 <= at < procs[i].inputs.len() && (i < j || (i == j && at < t))
            && (#[trigger] procs[i].inputs[at]).0 == k && gives_into(procs[i], level)
}

/// A stock within some distance is within any larger distance.
pub proof fn lemma_within_grows(data: DataView, k: Seq<char>, d: nat, e: nat)
    requires
        within(data, k, d),
        d <= e,
    ensures
        within(data, k, e),
    decreases e - d,
{
    if d < e {
        lemma_within_grows(data, k, d + 1, e);
    }
}

/// With the stocks at distance `d - 1` in `level`, the stocks within `d` are
/// those within `d - 1` and the inputs of the processes that give into `level`.
pub proof fn lemma_round(data: DataView, level: Seq<Seq<char>>, d: nat, k: Seq<char>)
    requires
        d >= 1,
        forall|x: Seq<char>| level.contains(x) <==> at_distance(data, x, (d - 1) as nat),
    ensures
        within(data, k, d) <==> within(data, k, (d - 1) as nat) || found(
            data.processes,
            level,
            k,
            data.processes.len() as int,
            0,
        ),
{
    let procs = data.processes;
    let less = (d - 1) as nat;
    if found(procs, level, k, procs.len() as int, 0) {
        let (i, at) = choose|i: int, at: int|
            0 <= i < procs.len() && 0 <= at < procs[i].inputs.len() && (i < procs.len() || (i
                == procs.len() && at < 0)) && (#[trigger] procs[i].inputs[at]).0 == k
                && gives_into(procs[i], level);
        let o = choose|o: int|
            0 <= o < procs[i].outputs.len() && level.contains((#[trigger] procs[i].outputs[o]).0);
        let x = procs[i].outputs[o].0;
        assert(mentions(procs[i].inputs, k));
        assert(mentions(procs[i].outputs, x));
        assert(feeds(procs, k, x));
        assert(at_distance(data, x, less));
        assert(within(data, x, less));
    }
    if within(data, k, d) && !within(data, k, less) {
        let x = choose|x: Seq<char>| #[trigger] feeds(procs, k, x) && within(data, x, less);
        let i = choose|i: int|
            0 <= i < procs.len() && mentions((#[trigger] procs[i]).inputs, k) && mentions(
                procs[i].outputs,
                x,
            );
        let at = choose|at: int|
            0 <= at < procs[i].inputs.len() && (#[trigger] procs[i].inputs[at]).0 == k;
        let o = choose|o: int|
            0 <= o < procs[i].outputs.len() && (#[trigger] procs[i].outputs[o]).0 == x;
        if at_distance(data, x, less) {
            assert(level.contains(procs[i].outputs[o].0));
            assert(gives_into(procs[i], level));
            assert(procs[i].inputs[at].0 == k);
        } else {
            assert(within(data, x, (less - 1) as nat));
            assert(within(data, k, less));
        }
    }
}

/// Where no stock is at distance `d`, no stock is farther.
pub proof fn lemma_closed(data: DataView, d: nat, e: nat, k: Seq<char>)
    requires
        forall|x: Seq<char>| !at_distance(data, x, d),
        d <= e,
        within(data, k, e),
    ensures
        within(data, k, d),
    decreases e,
{
    if d < e {
        let less = (e - 1) as nat;
        if within(data, k, less) {
            lemma_closed(data, d, less, k);
        } else {
            let x = choose|x: Seq<char>|
                #[trigger] feeds(data.processes, k, x) && within(data, x, less);
            lemma_closed(data, d, less, x);
            assert(!at_distance(data, x, d));
            if d == 0 {
                assert(false);
            } else {
                assert(within(data, x, (d - 1) as nat));
                assert(within(data, k, d));
            }
        }
    }
}

/// The number of input pairs of all the processes.
pub fn count_inputs(processes: &Vec<Process>) -> (total: u128)
    ensures
        total == depth_limit(crate::model::processes_view(processes@)),
{
    let ghost procs = crate::model::processes_view(processes@);
    let mut total: u128 = 0;
    let mut i: usize = 0;
    while i < processes.len()
        invariant
            i <= processes@.len(),
            procs == crate::model::processes_view(processes@),
            total == depth_limit(procs.take(i as int)),
            total <= i * usize::MAX,
        decreases processes@.len() - i,
    {
        proof {
            assert(procs.take(i + 1).drop_last() =~= procs.take(i as int));
            assert((i + 1) * usize::MAX <= u128::MAX && (i + 1) * usize::MAX == i * usize::MAX
                + usize::MAX) by (nonlinear_arith)
                requires
                    0 <= i < 0x1_0000_0000_0000_0000,
                    0 <= usize::MAX < 0x1_0000_0000_0000_0000,
            ;
        }
        total = total + processes[i].input.len() as u128;
        i += 1;
    }
    proof {
        assert(procs.take(processes@.len() as int) =~= procs);
    }
    total
}

/// Whether the process gives out a stock of `level`.
pub fn gives_into_level(process: &Process, level: &Vec<String>) -> (b: bool)
    ensures
        b == gives_into(process@, names_view(level@)),
{
    let ghost outs = process@.outputs;
    let mut o: usize = 0;
    while o < process.output.len()
        invariant
            o <= process.output@.len(),
            outs == process@.outputs,
            forall|x: int| 0 <= x < o ==> !names_view(level@).contains((#[trigger] outs[x]).0),
        decreases process.output@.len() - o,
    {
        assert(outs[o as int].0 == process.output@[o as int].0@);
        if names_contain(level, &process.output[o].0) {
            return true;
        }
        o += 1;
    }
    false
}

/// A list with one more element holds what it held, and that element.
pub proof fn lemma_push_contains<A>(s: Seq<A>, e: A, x: A)
    ensures
        s.push(e).contains(x) <==> s.contains(x) || x == e,
{
    let t = s.push(e);
    if s.contains(x) {
        let i = choose|i: int| 0 <= i < s.len() && s[i] == x;
        assert(t[i] == x);
    }
    if x == e {
        assert(t[s.len() as int] == x);
    }
    if t.contains(x) {
        let i = choose|i: int| 0 <= i < t.len() && t[i] == x;
        if i < s.len() {
            assert(s[i] == x);
        }
    }
}

/// What is found before the next input is what was found, and this input.
pub proof fn lemma_found_input(
    procs: Seq<ProcessView>,
    level: Seq<Seq<char>>,
    k: Seq<char>,
    j: int,
    t: int,
)
    requires
        0 <= j < procs.len(),
        0 <= t < procs[j].inputs.len(),
        gives_into(procs[j], level),
    ensures
        found(procs, level, k, j, t + 1) <==> found(procs, level, k, j, t) || procs[j].inputs[t].0
            == k,
{
    if found(procs, level, k, j, t + 1) {
        let (i, at) = choose|i: int, at: int|
            0 <= i < procs.len() && 0 <= at < procs[i].inputs.len() && (i < j || (i == j && at < t
                + 1)) && (#[trigger] procs[i].inputs[at]).0 == k && gives_into(procs[i], level);
        if !(i == j && at == t) {
            assert(procs[i].inputs[at].0 == k);
            assert(found(procs, level, k, j, t));
        }
    }
    if found(procs, level, k, j, t) {
        let (i, at) = choose|i: int, at: int|
            0 <= i < procs.len() && 0 <= at < procs[i].inputs.len() && (i < j || (i == j && at
                < t)) && (#[trigger] procs[i].inputs[at]).0 == k && gives_into(procs[i], level);
        assert(procs[i].inputs[at].0 == k);
        assert(found(procs, level, k, j, t + 1));
    }
    if procs[j].inputs[t].0 == k {
        assert(found(procs, level, k, j, t + 1));
    }
}

/// What is found before the next process is what was found up to the last
/// input of this one; a process that does not give into the level adds nothing.
pub proof fn lemma_found_process(
    procs: Seq<ProcessView>,
    level: Seq<Seq<char>>,
    k: Seq<char>,
    j: int,
    t: int,
)
    requires
        0 <= j < procs.len(),
        0 <= t,
        t >= procs[j].inputs.len() || !gives_into(procs[j], level),
    ensures
        found(procs, level, k, j + 1, 0) <==> found(procs, level, k, j, t),
        !found(procs, level, k, 0, 0),
{
    if found(procs, level, k, j + 1, 0) {
        let (i, at) = choose|i: int, at: int|
            0 <= i < procs.len() && 0 <= at < procs[i].inputs.len() && (i < j + 1 || (i == j + 1
                && at < 0)) && (#[trigger] procs[i].inputs[at]).0 == k && gives_into(
                procs[i],
                level,
            );
        assert(procs[i].inputs[at].0 == k);
        assert(found(procs, level, k, j, t));
    }
    if found(procs, level, k, j, t) {
        let (i, at) = choose|i: int, at: int|
            0 <= i < procs.len() && 0 <= at < procs[i].inputs.len() && (i < j || (i == j && at
                < t)) && (#[trigger] procs[i].inputs[at]).0 == k && gives_into(procs[i], level);
        assert(procs[i].inputs[at].0 == k);
        assert(found(procs, level, k, j + 1, 0));
    }
}

/// The scores are those of the stocks within `d` processes of an objective:
/// `top` for an objective, and one less for each process that lies between.
pub open spec fn scores_match(scores: Map<Seq<char>, nat>, data: DataView, top: nat, d: nat) -> bool {
    &&& forall|k: Seq<char>| #[trigger] scores.dom().contains(k) <==> within(data, k, d)
    &&& forall|k: Seq<char>, e: nat|
        e <= d && #[trigger] at_distance(data, k, e) ==> scores[k] == score_at(top, e)
}

/// The state of a round in progress: `scores` holds what `old` held, and the
/// new stocks found so far, which `next` lists, at `value`.
pub open spec fn round_state(
    scores: Map<Seq<char>, nat>,
    next: Seq<Seq<char>>,
    old: Map<Seq<char>, nat>,
    procs: Seq<ProcessView>,
    level: Seq<Seq<char>>,
    value: nat,
    j: int,
    t: int,
) -> bool {
    &&& forall|k: Seq<char>| #[trigger]
        scores.dom().contains(k) <==> old.dom().contains(k) || found(procs, level, k, j, t)
    &&& forall|k: Seq<char>| #[trigger] old.dom().contains(k) ==> scores[k] == old[k]
    &&& forall|k: Seq<char>|
        #[trigger] scores.dom().contains(k) && !old.dom().contains(k) ==> scores[k] == value
    &&& forall|k: Seq<char>| #[trigger]
        next.contains(k) <==> !old.dom().contains(k) && found(procs, level, k, j, t)
}

/// Scores each stock that leads to an objective: an objective gets the number
/// of stocks of the problem, and a stock that a process turns into a scored
/// stock gets one less than the best score it leads to, but never less than 0.
/// Stocks are sought as far from the objectives as the processes have input
/// pairs in all.
pub fn precompute_stock_scores(data: &Data) -> (scores: Stocks)
    ensures
        scores_match(
            scores@,
            data@,
            data.stocks.keys().len(),
            depth_limit(data@.processes),
        ),
{
    let ghost problem = data@;
    let ghost procs = data@.processes;
    let ghost names = data@.objectives;
    let top: u64 = data.stocks.len() as u64;
    let mut scores = Stocks::new();
    let mut level: Vec<String> = Vec::new();
    let mut i: usize = 0;
    while i < data.objectives.len()
        invariant
            i <= data.objectives@.len(),
            names == names_view(data.objectives@),
            top == data.stocks.keys().len(),
            forall|k: Seq<char>| #[trigger]
                scores@.dom().contains(k) <==> names.take(i as int).contains(k),
            forall|k: Seq<char>| #[trigger] scores@.dom().contains(k) ==> scores@[k] == top,
            forall|k: Seq<char>| #[trigger]
                names_view(level@).contains(k) <==> names.take(i as int).contains(k),
        decreases data.objectives@.len() - i,
    {
        let ghost k = names[i as int];
        let ghost held = scores@;
        let ghost listed = names_view(level@);
        assert(k == data.objectives@[i as int]@);
        if !scores.contains(&data.objectives[i]) {
            scores.set(data.objectives[i].clone(), top);
            level.push(data.objectives[i].clone());
            assert(names_view(level@) =~= listed.push(k));
        }
        proof {
            assert forall|x: Seq<char>| #[trigger]
                scores@.dom().contains(x) <==> names.take(i + 1).contains(x) by {
                crate::ledger::lemma_take_contains(names, i as int, x);
                assert(held.dom().contains(x) <==> names.take(i as int).contains(x));
            }
            assert forall|x: Seq<char>| #[trigger]
                names_view(level@).contains(x) <==> names.take(i + 1).contains(x) by {
                crate::ledger::lemma_take_contains(names, i as int, x);
                lemma_push_contains(listed, k, x);
                assert(listed.contains(x) <==> names.take(i as int).contains(x));
                assert(held.dom().contains(k) <==> names.take(i as int).contains(k));
            }
            assert forall|x: Seq<char>| #[trigger] scores@.dom().contains(x) implies scores@[x]
                == top by {
                if held.dom().contains(x) {
                    assert(held[x] == top);
                }
            }
        }
        i += 1;
    }
    proof {
        assert(names.take(data.objectives@.len() as int) =~= names);
        assert forall|k: Seq<char>| #[trigger] scores@.dom().contains(k) <==> within(
            problem,
            k,
            0,
        ) by {}
        assert forall|k: Seq<char>, e: nat|
            e <= 0 && #[trigger] at_distance(problem, k, e) implies scores@[k] == score_at(
            top as nat,
            e,
        ) by {
            assert(scores@.dom().contains(k));
        }
        assert forall|k: Seq<char>| #[trigger]
            names_view(level@).contains(k) <==> at_distance(problem, k, 0) by {}
    }
    let limit = count_inputs(&data.processes);
    let mut round: u128 = 0;
    while round < limit && level.len() > 0
        invariant
            problem == data@,
            procs == data@.processes,
            top == data.stocks.keys().len(),
            limit == depth_limit(procs),
            round <= limit,
            scores_match(scores@, problem, top as nat, round as nat),
            forall|k: Seq<char>| #[trigger]
                names_view(level@).contains(k) <==> at_distance(problem, k, round as nat),
        decreases limit - round,
    {
        let ghost old = scores@;
        let ghost reached = names_view(level@);
        let ghost d = (round + 1) as nat;
        round = round + 1;
        let value: u64 = if round > top as u128 {
            0
        } else {
            top - round as u64
        };
        assert(value == score_at(top as nat, d));
        let mut next: Vec<String> = Vec::new();
        let mut j: usize = 0;
        proof {
            assert forall|k: Seq<char>| !found(procs, reached, k, 0, 0) by {}
        }
        while j < data.processes.len()
            invariant
                j <= data.processes@.len(),
                procs == data@.processes,
                reached == names_view(level@),
                round_state(scores@, names_view(next@), old, procs, reached, value as nat, j as int, 0),
            decreases data.processes@.len() - j,
        {
            let process = &data.processes[j];
            assert(procs[j as int] == process@);
            let mut t: usize = 0;
            if gives_into_level(process, &level) {
                while t < process.input.len()
                    invariant
                        j < data.processes@.len(),
                        t <= process.input@.len(),
                        procs == data@.processes,
                        procs[j as int] == process@,
                        reached == names_view(level@),
                        gives_into(procs[j as int], reached),
                        round_state(
                            scores@,
                            names_view(next@),
                            old,
                            procs,
                            reached,
                            value as nat,
                            j as int,
                            t as int,
                        ),
                    decreases process.input@.len() - t,
                {
                    let ghost k = procs[j as int].inputs[t as int].0;
                    let ghost held = scores@;
                    let ghost listed = names_view(next@);
                    assert(k == process.input@[t as int].0@);
                    if !scores.contains(&process.input[t].0) {
                        scores.set(process.input[t].0.clone(), value);
                        next.push(process.input[t].0.clone());
                        assert(names_view(next@) =~= listed.push(k));
                    }
                    proof {
                        assert forall|x: Seq<char>| #[trigger]
                            scores@.dom().contains(x) <==> old.dom().contains(x) || found(
                                procs,
                                reached,
                                x,
                                j as int,
                                t + 1,
                            ) by {
                            lemma_found_input(procs, reached, x, j as int, t as int);
                            assert(held.dom().contains(x) <==> old.dom().contains(x) || found(
                                procs,
                                reached,
                                x,
                                j as int,
                                t as int,
                            ));
                        }
                        assert forall|x: Seq<char>| #[trigger]
                            old.dom().contains(x) implies scores@[x] == old[x] by {
                            assert(held.dom().contains(x));
                            assert(held[x] == old[x]);
                        }
                        assert forall|x: Seq<char>|
                            #[trigger] scores@.dom().contains(x) && !old.dom().contains(
                                x,
                            ) implies scores@[x] == value by {
                            if held.dom().contains(x) {
                                assert(held[x] == value);
                            }
                        }
                        assert forall|x: Seq<char>| #[trigger]
                            names_view(next@).contains(x) <==> !old.dom().contains(x) && found(
                                procs,
                                reached,
                                x,
                                j as int,
                                t + 1,
                            ) by {
                            lemma_found_input(procs, reached, x, j as int, t as int);
                            lemma_push_contains(listed, k, x);
                            assert(listed.contains(x) <==> !old.dom().contains(x) && found(
                                procs,
                                reached,
                                x,
                                j as int,
                                t as int,
                            ));
                            assert(held.dom().contains(k) <==> old.dom().contains(k) || found(
                                procs,
                                reached,
                                k,
                                j as int,
                                t as int,
                            ));
                            assert(listed.contains(k) <==> !old.dom().contains(k) && found(
                                procs,
                                reached,
                                k,
                                j as int,
                                t as int,
                            ));
                        }
                    }
                    t += 1;
                }
            }
            proof {
                assert forall|x: Seq<char>|
                    found(procs, reached, x, j + 1, 0) <==> found(
                        procs,
                        reached,
                        x,
                        j as int,
                        t as int,
                    ) by {
                    lemma_found_process(procs, reached, x, j as int, t as int);
                }
            }
            j += 1;
        }
        proof {
            let less = (d - 1) as nat;
            assert forall|k: Seq<char>| #[trigger]
                scores@.dom().contains(k) <==> within(problem, k, d) by {
                lemma_round(problem, reached, d, k);
                assert(old.dom().contains(k) <==> within(problem, k, less));
            }
            assert forall|k: Seq<char>, e: nat|
                e <= d && #[trigger] at_distance(problem, k, e) implies scores@[k] == score_at(
                top as nat,
                e,
            ) by {
                if e <= less {
                    lemma_within_grows(problem, k, e, less);
                    assert(old.dom().contains(k));
                    assert(old[k] == score_at(top as nat, e));
                } else {
                    assert(old.dom().contains(k) <==> within(problem, k, less));
                    lemma_round(problem, reached, d, k);
                    assert(scores@.dom().contains(k));
                }
            }
            assert forall|k: Seq<char>| #[trigger]
                names_view(next@).contains(k) <==> at_distance(problem, k, d) by {
                lemma_round(problem, reached, d, k);
                assert(old.dom().contains(k) <==> within(problem, k, less));
            }
        }
        level = next;
    }
    proof {
        let d = round as nat;
        let far = limit as nat;
        if d < far {
            assert(names_view(level@).len() == 0);
            assert forall|x: Seq<char>| !at_distance(problem, x, d) by {
                assert(!names_view(level@).contains(x));
            }
            assert forall|k: Seq<char>| #[trigger]
                scores@.dom().contains(k) <==> within(problem, k, far) by {
                if within(problem, k, far) {
                    lemma_closed(problem, d, far, k);
                }
                if within(problem, k, d) {
                    lemma_within_grows(problem, k, d, far);
                }
            }
            assert forall|k: Seq<char>, e: nat|
                e <= far && #[trigger] at_distance(problem, k, e) implies scores@[k] == score_at(
                top as nat,
                e,
            ) by {
                if e > d {
                    lemma_closed(problem, d, e, k);
                    lemma_within_grows(problem, k, d, (e - 1) as nat);
                }
            }
        }
    }
    scores
}

} // verus!
