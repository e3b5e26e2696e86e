//! The genetic algorithm: an individual is a sequence of process names, read
//! as the order in which a greedy simulation tries to fire each process once.

use crate::budget::{polls_used, Budget};
use crate::chance::{one_in, pick_below};
use crate::ledger::settled;
use crate::model::{copy_names, names_view, Data, DataView};
use crate::replay::{find_process, first_named, known, verdict, Fault};
use crate::run::{can_fire, expand, fired, follows, initial_run, log_view, Run, RunView};
use crate::stock_scores::precompute_stock_scores;
use crate::stocks::{quantity, Stocks};
use rand::rngs::ThreadRng;
use vstd::prelude::*;

verus! {

/// The number of individuals of a population.
pub const POPULATION_SIZE: usize = 20000;

/// An individual: its sequence, and the fitness, elapsed time and log that
/// its last simulation gave.
pub struct Solution {
    pub sequence: Vec<String>,
    pub fitness: u128,
    pub time: u64,
    pub log: Vec<(String, u64, u64)>,
}

impl Solution {
    /// An individual that has not been simulated.
    pub fn new(sequence: Vec<String>, fitness: u128, time: u64) -> (s: Solution)
        ensures
            s.sequence == sequence,
            s.fitness == fitness,
            s.time == time,
            s.log@.len() == 0,
    {
        Solution { sequence, fitness, time, log: Vec::new() }
    }
}

/// The run after one name of a sequence: the first process of that name fires
/// once and its duration passes, if that can be done.
pub open spec fn gene_step(run: RunView, data: DataView, name: Seq<char>) -> RunView {
    let index = first_named(data.processes, name);
    if known(data.processes, name) && can_fire(
        run,
        data,
        index,
        1,
        data.processes[index].duration,
    ) {
        fired(run, data.processes[index], 1, data.processes[index].duration)
    } else {
        run
    }
}

/// The run that the simulation of a sequence gives.
pub open spec fn simulated(data: DataView, sequence: Seq<Seq<char>>) -> RunView
    decreases sequence.len(),
{
    if sequence.len() == 0 {
        initial_run(data)
    } else {
        gene_step(simulated(data, sequence.drop_last()), data, sequence.last())
    }
}

/// The stocks in the order of `keys`, each weighted by its score, summed.
pub open spec fn weighted(
    keys: Seq<Seq<char>>,
    stocks: Map<Seq<char>, nat>,
    scores: Map<Seq<char>, nat>,
) -> nat
    decreases keys.len(),
{
    if keys.len() == 0 {
        0
    } else {
        weighted(keys.drop_last(), stocks, scores) + quantity(scores, keys.last()) * quantity(
            stocks,
            keys.last(),
        )
    }
}

/// A sum as far as the machine can count it.
pub open spec fn capped(n: nat) -> nat {
    if n > u128::MAX {
        u128::MAX as nat
    } else {
        n
    }
}

/// Simulates a sequence from the initial stocks of `data`.
pub fn simulate_run(data: &Data, sequence: &Vec<String>) -> (run: Run)
    ensures
        run@ == simulated(data@, names_view(sequence@)),
        follows(run@, data@),
{
    let ghost names = names_view(sequence@);
    let mut run = Run::start(data);
    let mut i: usize = 0;
    while i < sequence.len()
        invariant
            i <= sequence@.len(),
            names == names_view(sequence@),
            run@ == simulated(data@, names.take(i as int)),
            follows(run@, data@),
        decreases sequence@.len() - i,
    {
        proof {
            assert(names.take(i + 1).drop_last() =~= names.take(i as int));
            assert(names[i as int] == sequence@[i as int]@);
        }
        match find_process(&data.processes, &sequence[i]) {
            Some(index) => {
                assert(data@.processes[index as int] == data.processes@[index as int]@);
                let _ = run.try_fire(data, index, 1, data.processes[index].time);
            },
            None => {},
        }
        i += 1;
    }
    proof {
        assert(names.take(sequence@.len() as int) =~= names);
    }
    run
}

/// The stocks and the elapsed time that the simulation of a sequence gives.
pub fn simulate(data: &Data, sequence: &Vec<String>) -> (r: (Stocks, u64))
    ensures
        r.0@ == settled(simulated(data@, names_view(sequence@)).tick),
        r.1 == simulated(data@, names_view(sequence@)).time,
{
    let run = simulate_run(data, sequence);
    let (time, stocks, _) = run.into_result(data);
    (stocks, time)
}

/// The log that the simulation of a sequence gives.
pub fn simulate_and_log(data: &Data, sequence: &Vec<String>) -> (log: Vec<(String, u64, u64)>)
    ensures
        log_view(log@) == simulated(data@, names_view(sequence@)).log,
        verdict(
            data@,
            expand(log_view(log@)),
            settled(simulated(data@, names_view(sequence@)).tick),
        ) == Ok::<(), Fault>(()),
{
    let run = simulate_run(data, sequence);
    let (_, _, log) = run.into_result(data);
    log
}

/// The fitness of a snapshot: its stocks, each weighted by its score, summed
/// as far as the machine can count.
pub fn fitness_of(stocks: &Stocks, scores: &Stocks) -> (total: u128)
    ensures
        total == capped(weighted(stocks.keys(), stocks@, scores@)),
{
    let ghost keys = stocks.keys();
    let mut total: u128 = 0;
    let mut i: usize = 0;
    while i < stocks.len()
        invariant
            i <= keys.len(),
            keys == stocks.keys(),
            total == capped(weighted(keys.take(i as int), stocks@, scores@)),
        decreases keys.len() - i,
    {
        let held = stocks.amount_at(i);
        let score = scores.get(stocks.name_at(i));
        proof {
            assert(keys.take(i + 1).drop_last() =~= keys.take(i as int));
            assert(quantity(stocks@, keys[i as int]) == held);
            assert(score * held <= 0xffff_ffff_ffff_ffff * 0xffff_ffff_ffff_ffff) by (nonlinear_arith)
                requires
                    0 <= score <= 0xffff_ffff_ffff_ffff,
                    0 <= held <= 0xffff_ffff_ffff_ffff,
            ;
        }
        let term: u128 = (score as u128) * (held as u128);
        if total > u128::MAX - term {
            total = u128::MAX;
        } else {
            total = total + term;
        }
        i += 1;
    }
    proof {
        assert(keys.take(keys.len() as int) =~= keys);
    }
    total
}

/// The fitness and the elapsed time of a sequence: it is simulated, and the
/// stocks it leaves, each name once, are weighted by `stock_scores`.
pub fn evaluate_fitness(data: &Data, sequence: &Vec<String>, stock_scores: &Stocks) -> (r: (
    u128,
    u64,
))
    ensures
        r.1 == simulated(data@, names_view(sequence@)).time,
        exists|left: Stocks|
            left.wf() && left@ == settled(simulated(data@, names_view(sequence@)).tick) && r.0
                == capped(weighted(left.keys(), left@, stock_scores@)),
{
    let (left, time) = simulate(data, sequence);
    proof {
        use_type_invariant(&left);
    }
    let fitness = fitness_of(&left, stock_scores);
    (fitness, time)
}

/// The child of two sequences: the first up to `point`, then the second from
/// `point` on.
pub fn crossover(first: &Vec<String>, second: &Vec<String>, point: usize) -> (child: Vec<String>)
    requires
        point <= first@.len(),
    ensures
        names_view(child@) == names_view(first@).take(point as int) + names_view(second@).skip(
            if point <= second@.len() {
                point as int
            } else {
                second@.len() as int
            },
        ),
{
    let mut child: Vec<String> = Vec::new();
    let mut i: usize = 0;
    while i < point
        invariant
            i <= point <= first@.len(),
            names_view(child@) == names_view(first@).take(i as int),
        decreases point - i,
    {
        let ghost held = names_view(child@);
        child.push(first[i].clone());
        assert(names_view(child@) =~= held.push(first@[i as int]@));
        assert(names_view(first@).take(i + 1) =~= names_view(first@).take(i as int).push(
            first@[i as int]@,
        ));
        i += 1;
    }
    let from = if point <= second.len() {
        point
    } else {
        second.len()
    };
    let mut j: usize = from;
    let ghost head = names_view(first@).take(point as int);
    assert(names_view(child@) =~= head + names_view(second@).subrange(from as int, j as int));
    while j < second.len()
        invariant
            from <= j <= second@.len(),
            names_view(child@) == head + names_view(second@).subrange(from as int, j as int),
        decreases second@.len() - j,
    {
        let ghost held = names_view(child@);
        child.push(second[j].clone());
        assert(names_view(child@) =~= held.push(second@[j as int]@));
        assert(names_view(second@).subrange(from as int, j + 1) =~= names_view(second@).subrange(
            from as int,
            j as int,
        ).push(second@[j as int]@));
        assert(names_view(child@) =~= head + names_view(second@).subrange(from as int, j + 1));
        j += 1;
    }
    assert(names_view(second@).subrange(from as int, second@.len() as int) =~= names_view(
        second@,
    ).skip(from as int));
    child
}

/// Puts `name` in place of the name at `point`.
pub fn mutate(sequence: &mut Vec<String>, point: usize, name: String)
    requires
        point < old(sequence)@.len(),
    ensures
        names_view(final(sequence)@) == names_view(old(sequence)@).update(point as int, name@),
{
    sequence.set(point, name);
    assert(names_view(sequence@) =~= names_view(old(sequence)@).update(point as int, name@));
}

/// The place of the fittest individual, and of several the first; none in an
/// empty population.
pub fn fittest(population: &Vec<Solution>) -> (r: Option<usize>)
    ensures
        match r {
            Some(best) => {
                &&& best < population@.len()
                &&& forall|i: int|
                    0 <= i < population@.len() ==> (#[trigger] population@[i]).fitness
                        <= population@[best as int].fitness
                &&& forall|i: int|
                    0 <= i < best ==> (#[trigger] population@[i]).fitness
                        < population@[best as int].fitness
            },
            None => population@.len() == 0,
        },
{
    if population.len() == 0 {
        return None;
    }
    let mut best: usize = 0;
    let mut i: usize = 1;
    while i < population.len()
        invariant
            1 <= i <= population@.len(),
            best < i,
            forall|x: int|
                0 <= x < i ==> (#[trigger] population@[x]).fitness
                    <= population@[best as int].fitness,
            forall|x: int|
                0 <= x < best ==> (#[trigger] population@[x]).fitness
                    < population@[best as int].fitness,
        decreases population@.len() - i,
    {
        if population[i].fitness > population[best].fitness {
            best = i;
        }
        i += 1;
    }
    Some(best)
}

/// The place of the fittest individual, and of several the first.
pub open spec fn fittest_at(population: Seq<Solution>, best: int) -> bool {
    &&& 0 <= best < population.len()
    &&& forall|i: int|
        0 <= i < population.len() ==> (#[trigger] population[i]).fitness
            <= population[best].fitness
    &&& forall|i: int| 0 <= i < best ==> (#[trigger] population[i]).fitness < population[best].fitness
}

/// The run of the fittest individual of a population, and of several the
/// first: its sequence, simulated. The initial run for an empty population.
pub fn fittest_run(population: &Vec<Solution>, data: &Data) -> (run: Run)
    ensures
        follows(run@, data@),
        population@.len() == 0 ==> run@ == initial_run(data@),
        forall|best: int|
            fittest_at(population@, best) ==> run@ == simulated(
                data@,
                names_view(population@[best].sequence@),
            ),
{
    match fittest(population) {
        Some(best) => {
            assert forall|other: int| fittest_at(population@, other) implies other == best by {
                if other < best {
                    assert(population@[other].fitness < population@[best as int].fitness);
                }
                if best < other {
                    assert(population@[best as int].fitness < population@[other].fitness);
                }
            }
            simulate_run(data, &population[best].sequence)
        },
        None => Run::start(data),
    }
}

/// `slice::sort_by_key` of std, keyed by the fitness in reverse: the
/// individuals are put in the order of falling fitness. The sort is stable
/// and moves the individuals without changing any.
#[verifier::external_body]
pub(crate) fn sort_by_fitness(population: &mut Vec<Solution>)
    ensures
        final(population)@.to_multiset() == old(population)@.to_multiset(),
        forall|i: int, j: int|
            0 <= i <= j < final(population)@.len() ==> (#[trigger] final(population)@[i]).fitness
                >= (#[trigger] final(population)@[j]).fitness,
{
    population.sort_by_key(|s| std::cmp::Reverse(s.fitness));
}

/// The names of all the processes, in their order.
pub open spec fn all_ids(data: DataView) -> Seq<Seq<char>> {
    Seq::new(data.processes.len(), |i: int| data.processes[i].id)
}

/// The sequence has one name for each process of the problem, each the name
/// of some process.
pub open spec fn plausible(sequence: Seq<Seq<char>>, data: DataView) -> bool {
    &&& sequence.len() == data.processes.len()
    &&& forall|j: int| 0 <= j < sequence.len() ==> known(data.processes, #[trigger] sequence[j])
}

/// Every individual has a plausible sequence.
pub open spec fn bred(population: Seq<Solution>, data: DataView) -> bool {
    forall|i: int|
        0 <= i < population.len() ==> plausible(
            names_view((#[trigger] population[i]).sequence@),
            data,
        )
}

/// Every individual has the names of all the processes, in their order.
pub open spec fn unbred(population: Seq<Solution>, data: DataView) -> bool {
    forall|i: int|
        0 <= i < population.len() ==> names_view((#[trigger] population[i]).sequence@) == all_ids(
            data,
        )
}

/// Keeps the `keep` fittest individuals, in the order of falling fitness.
pub fn select_survivors(population: &mut Vec<Solution>, keep: usize)
    ensures
        forall|i: int|
            0 <= i < final(population)@.len() ==> old(population)@.contains(
                #[trigger] final(population)@[i],
            ),
        final(population)@.len() == if keep <= old(population)@.len() {
            keep as nat
        } else {
            old(population)@.len()
        },
        forall|i: int, j: int|
            0 <= i <= j < final(population)@.len() ==> (#[trigger] final(population)@[i]).fitness
                >= (#[trigger] final(population)@[j]).fitness,
        exists|sorted: Seq<Solution>|
            sorted.to_multiset() == old(population)@.to_multiset() && #[trigger] sorted.len()
                == old(population)@.len() && final(population)@ == sorted.take(
                final(population)@.len() as int,
            ) && forall|i: int, j: int|
                0 <= i <= j < sorted.len() ==> (#[trigger] sorted[i]).fitness >= (
                #[trigger] sorted[j]).fitness,
{
    sort_by_fitness(population);
    let ghost sorted = population@;
    proof {
        population@.to_multiset_ensures();
        old(population)@.to_multiset_ensures();
    }
    population.truncate(keep);
    assert(population@ =~= sorted.take(population@.len() as int));
    proof {
        assert forall|i: int| 0 <= i < population@.len() implies old(population)@.contains(
            #[trigger] population@[i],
        ) by {
            assert(sorted[i] == population@[i]);
            assert(sorted.contains(sorted[i]));
            sorted.to_multiset_ensures();
            old(population)@.to_multiset_ensures();
            assert(sorted.to_multiset().count(sorted[i]) > 0);
            assert(old(population)@.to_multiset().count(sorted[i]) > 0);
        }
    }
}

/// Evolves a population of `population_size` individuals, generation by
/// generation, until the budget is spent: each individual is simulated; the
/// fitter half is kept; the population is filled up with children of two
/// kept individuals, cut at a random point; and one individual in ten has one
/// name replaced by that of a random process. Returns the run of the fittest
/// individual of the last population, or the initial run for an empty one.
pub fn evolve(data: &Data, budget: &mut Budget, population_size: usize, rng: &mut ThreadRng) -> (best:
    Run)
    ensures
        follows(best@, data@),
        population_size == 0 ==> best@ == initial_run(data@),
        population_size > 0 ==> exists|sequence: Seq<Seq<char>>|
            plausible(sequence, data@) && best@ == #[trigger] simulated(data@, sequence),
        population_size > 0 && polls_used(old(budget), final(budget)) == 0 ==> best@ == simulated(
            data@,
            all_ids(data@),
        ),
        final(budget).remaining() <= old(budget).remaining(),
        old(budget).was_spent() ==> final(budget).remaining() == old(budget).remaining(),
{
    let scores = precompute_stock_scores(data);
    let mut base: Vec<String> = Vec::new();
    let mut p: usize = 0;
    assert(names_view(base@) =~= all_ids(data@).take(0));
    while p < data.processes.len()
        invariant
            p <= data.processes@.len(),
            names_view(base@) == all_ids(data@).take(p as int),
        decreases data.processes@.len() - p,
    {
        let ghost held = names_view(base@);
        base.push(data.processes[p].id.clone());
        proof {
            assert(data@.processes[p as int] == data.processes@[p as int]@);
            assert(names_view(base@) =~= held.push(data@.processes[p as int].id));
            assert(all_ids(data@).take(p + 1) =~= all_ids(data@).take(p as int).push(
                data@.processes[p as int].id,
            ));
        }
        p += 1;
    }
    proof {
        assert(all_ids(data@).take(data.processes@.len() as int) =~= all_ids(data@));
        assert(plausible(all_ids(data@), data@)) by {
            assert forall|j: int| 0 <= j < all_ids(data@).len() implies known(
                data@.processes,
                #[trigger] all_ids(data@)[j],
            ) by {
                assert(data@.processes[j].id == all_ids(data@)[j]);
            }
        }
    }
    let mut population: Vec<Solution> = Vec::new();
    while population.len() < population_size
        invariant
            population@.len() <= population_size,
            names_view(base@) == all_ids(data@),
            unbred(population@, data@),
        decreases population_size - population@.len(),
    {
        population.push(Solution::new(copy_names(&base), 0, 0));
    }
    let ghost before = budget.remaining();
    loop
        invariant
            population@.len() == population_size,
            names_view(base@) == all_ids(data@),
            plausible(all_ids(data@), data@),
            bred(population@, data@),
            before == old(budget).remaining(),
            budget.remaining() <= before,
            budget.remaining() == before ==> unbred(population@, data@),
            old(budget).was_spent() ==> budget.was_spent() && budget.remaining() == before,
        decreases budget.remaining(),
    {
        if budget.spent() {
            break ;
        }
        let mut i: usize = 0;
        while i < population.len()
            invariant
                i <= population@.len(),
                population@.len() == population_size,
                bred(population@, data@),
            decreases population@.len() - i,
        {
            let (fitness, time) = evaluate_fitness(data, &population[i].sequence, &scores);
            let log = simulate_and_log(data, &population[i].sequence);
            let sequence = copy_names(&population[i].sequence);
            let ghost held = population@;
            population.set(i, Solution { sequence, fitness, time, log });
            proof {
                assert forall|x: int| 0 <= x < population@.len() implies plausible(
                    names_view((#[trigger] population@[x]).sequence@),
                    data@,
                ) by {
                    if x != i {
                        assert(population@[x] == held[x]);
                    } else {
                        assert(plausible(names_view(held[i as int].sequence@), data@));
                    }
                }
            }
            i += 1;
        }
        let ghost evaluated = population@;
        select_survivors(&mut population, population_size / 2);
        proof {
            assert forall|x: int| 0 <= x < population@.len() implies plausible(
                names_view((#[trigger] population@[x]).sequence@),
                data@,
            ) by {
                assert(evaluated.contains(population@[x]));
                let j = choose|j: int| 0 <= j < evaluated.len() && evaluated[j] == population@[x];
                assert(plausible(names_view(evaluated[j].sequence@), data@));
            }
        }
        let kept = population.len();
        if kept > 0 {
            while population.len() < population_size
                invariant
                    0 < kept <= population@.len(),
                    population@.len() <= population_size,
                    bred(population@, data@),
                decreases population_size - population@.len(),
            {
                let first = pick_below(rng, kept);
                let second = pick_below(rng, kept);
                let length = population[first].sequence.len();
                let point = if length > 0 {
                    pick_below(rng, length)
                } else {
                    0
                };
                let child = crossover(
                    &population[first].sequence,
                    &population[second].sequence,
                    point,
                );
                proof {
                    let a = names_view(population@[first as int].sequence@);
                    let b = names_view(population@[second as int].sequence@);
                    let c = names_view(child@);
                    assert(plausible(a, data@) && plausible(b, data@));
                    assert(c.len() == data@.processes.len());
                    assert forall|j: int| 0 <= j < c.len() implies known(
                        data@.processes,
                        #[trigger] c[j],
                    ) by {
                        if j < point {
                            assert(c[j] == a[j]);
                        } else {
                            assert(c[j] == b[j]);
                        }
                    }
                }
                population.push(Solution::new(child, 0, 0));
            }
        } else {
            assert(population_size <= 1);
            assert(population@.len() == 0);
        }
        if population.len() < population_size {
            while population.len() < population_size
                invariant
                    population@.len() <= population_size,
                    names_view(base@) == all_ids(data@),
                    plausible(all_ids(data@), data@),
                    bred(population@, data@),
                decreases population_size - population@.len(),
            {
                population.push(Solution::new(copy_names(&base), 0, 0));
            }
        }
        let mut m: usize = 0;
        while m < population.len()
            invariant
                m <= population@.len(),
                population@.len() == population_size,
                bred(population@, data@),
            decreases population@.len() - m,
        {
            if one_in(rng, 1, 10) && population[m].sequence.len() > 0 && data.processes.len() > 0 {
                let point = pick_below(rng, population[m].sequence.len());
                let other = pick_below(rng, data.processes.len());
                let mut sequence = copy_names(&population[m].sequence);
                let ghost was = names_view(population@[m as int].sequence@);
                assert(names_view(sequence@).len() == was.len());
                mutate(&mut sequence, point, data.processes[other].id.clone());
                let fitness = population[m].fitness;
                let time = population[m].time;
                let ghost held = population@;
                proof {
                    assert(plausible(was, data@));
                    assert(data@.processes[other as int].id == data.processes@[other as int].id@);
                    let now = names_view(sequence@);
                    assert forall|j: int| 0 <= j < now.len() implies known(
                        data@.processes,
                        #[trigger] now[j],
                    ) by {
                        if j != point {
                            assert(now[j] == was[j]);
                        }
                    }
                }
                population.set(m, Solution::new(sequence, fitness, time));
                proof {
                    assert forall|x: int| 0 <= x < population@.len() implies plausible(
                        names_view((#[trigger] population@[x]).sequence@),
                        data@,
                    ) by {
                        if x != m {
                            assert(population@[x] == held[x]);
                        }
                    }
                }
            }
            m += 1;
        }
    }
    proof {
        if population_size > 0 {
            assert(plausible(names_view(population@[0].sequence@), data@));
        }
    }
    let best = fittest_run(&population, data);
    proof {
        if population_size > 0 {
            lemma_fittest_exists(population@, population@.len() as int);
            let at = choose|at: int| fittest_at(population@, at);
            assert(plausible(names_view(population@[at].sequence@), data@));
        }
    }
    best
}

/// Among the first `upto` individuals of a population that is not empty, one
/// is the fittest and the first of the fittest.
pub proof fn lemma_fittest_exists(population: Seq<Solution>, upto: int)
    requires
        0 < upto <= population.len(),
    ensures
        exists|best: int| fittest_at(population.take(upto), best),
        upto == population.len() ==> exists|best: int| fittest_at(population, best),
    decreases upto,
{
    let part = population.take(upto);
    if upto == 1 {
        assert(fittest_at(part, 0));
    } else {
        lemma_fittest_exists(population, upto - 1);
        let rest = population.take(upto - 1);
        let b = choose|b: int| fittest_at(rest, b);
        assert forall|i: int| 0 <= i < rest.len() implies rest[i] == part[i] by {}
        if part[upto - 1].fitness > part[b].fitness {
            assert forall|i: int| 0 <= i < part.len() implies (#[trigger] part[i]).fitness
                <= part[upto - 1].fitness by {
                if i < upto - 1 {
                    assert(rest[i].fitness <= rest[b].fitness);
                }
            }
            assert forall|i: int| 0 <= i < upto - 1 implies (#[trigger] part[i]).fitness
                < part[upto - 1].fitness by {
                assert(rest[i].fitness <= rest[b].fitness);
            }
            assert(fittest_at(part, upto - 1));
        } else {
            assert forall|i: int| 0 <= i < part.len() implies (#[trigger] part[i]).fitness
                <= part[b].fitness by {
                if i < upto - 1 {
                    assert(rest[i].fitness <= rest[b].fitness);
                }
            }
            assert forall|i: int| 0 <= i < b implies (#[trigger] part[i]).fitness
                < part[b].fitness by {
                assert(rest[i].fitness < rest[b].fitness);
            }
            assert(fittest_at(part, b));
        }
    }
    if upto == population.len() {
        assert(part =~= population);
    }
}

/// Runs the genetic algorithm on `data` until the budget is spent, and
/// returns the elapsed time, the stocks and the log of the fittest individual
/// of the last population. Each name of a sequence fires its process once. A
/// sequence has one name for each process; before the first generation it
/// names all the processes in their order.
pub fn genetic_algorithm(data: Data, budget: &mut Budget) -> (r: Option<
    (u64, Stocks, Vec<(String, u64, u64)>),
>)
    ensures
        match r {
            Some(found) => {
                &&& verdict(data@, expand(log_view(found.2@)), found.1@) == Ok::<(), Fault>(())
                &&& exists|sequence: Seq<Seq<char>>|
                    plausible(sequence, data@) && found.0 == (#[trigger] simulated(
                        data@,
                        sequence,
                    )).time && found.1@ == settled(simulated(data@, sequence).tick) && log_view(
                        found.2@,
                    ) == simulated(data@, sequence).log
                &&& polls_used(old(budget), final(budget)) == 0 ==> found.0 == simulated(
                    data@,
                    all_ids(data@),
                ).time && found.1@ == settled(simulated(data@, all_ids(data@)).tick) && log_view(
                    found.2@,
                ) == simulated(data@, all_ids(data@)).log
            },
            None => false,
        },
        final(budget).remaining() <= old(budget).remaining(),
        old(budget).was_spent() ==> final(budget).remaining() == old(budget).remaining(),
{
    let mut rng = rand::thread_rng();
    let best = evolve(&data, budget, POPULATION_SIZE, &mut rng);
    Some(best.into_result(&data))
}

} // verus!
