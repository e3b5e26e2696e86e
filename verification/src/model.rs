//! The resource-flow model: processes, problems, and the transition that a
//! firing makes on a stock snapshot.

use crate::stocks::{quantity, Stocks};
use vstd::prelude::*;

verus! {

/// A timed transformation: it consumes its inputs and produces its outputs.
#[derive(Debug)]
pub struct Process {
    pub id: String,
    pub input: Vec<(String, u64)>,
    pub output: Vec<(String, u64)>,
    pub time: u64,
}

/// What a process is, as plain values.
pub struct ProcessView {
    pub id: Seq<char>,
    pub inputs: Seq<(Seq<char>, nat)>,
    pub outputs: Seq<(Seq<char>, nat)>,
    pub duration: nat,
}

/// A list of (stock, quantity) pairs as plain values.
pub open spec fn amounts_view(list: Seq<(String, u64)>) -> Seq<(Seq<char>, nat)> {
    Seq::new(list.len(), |i: int| (list[i].0@, list[i].1 as nat))
}

/// A list of names as plain values.
pub open spec fn names_view(list: Seq<String>) -> Seq<Seq<char>> {
    Seq::new(list.len(), |i: int| list[i]@)
}

impl View for Process {
    type V = ProcessView;

    open spec fn view(&self) -> ProcessView {
        ProcessView {
            id: self.id@,
            inputs: amounts_view(self.input@),
            outputs: amounts_view(self.output@),
            duration: self.time as nat,
        }
    }
}

/// A problem: the initial stocks, the processes, and the names of the stocks to maximize.
#[derive(Debug)]
pub struct Data {
    pub stocks: Stocks,
    pub processes: Vec<Process>,
    pub objectives: Vec<String>,
}

/// What a problem is, as plain values.
pub struct DataView {
    pub stocks: Map<Seq<char>, nat>,
    pub processes: Seq<ProcessView>,
    pub objectives: Seq<Seq<char>>,
}

/// A list of processes as plain values.
pub open spec fn processes_view(list: Seq<Process>) -> Seq<ProcessView> {
    Seq::new(list.len(), |i: int| list[i]@)
}

impl View for Data {
    type V = DataView;

    open spec fn view(&self) -> DataView {
        DataView {
            stocks: self.stocks@,
            processes: processes_view(self.processes@),
            objectives: names_view(self.objectives@),
        }
    }
}

/// The total quantity that `list` names for stock `k`.
pub open spec fn need(list: Seq<(Seq<char>, nat)>, k: Seq<char>) -> nat
    decreases list.len(),
{
    if list.len() == 0 {
        0
    } else {
        need(list.drop_last(), k) + if list.last().0 == k {
            list.last().1
        } else {
            0
        }
    }
}

/// `list` names stock `k`.
pub open spec fn mentions(list: Seq<(Seq<char>, nat)>, k: Seq<char>) -> bool {
    exists|i: int| 0 <= i < list.len() && (#[trigger] list[i]).0 == k
}

/// A firing of count `n` is feasible on `m`: of every stock, `n` times what the
/// inputs need is there.
pub open spec fn feasible(m: Map<Seq<char>, nat>, inputs: Seq<(Seq<char>, nat)>, n: nat) -> bool {
    forall|k: Seq<char>| n * #[trigger] need(inputs, k) <= quantity(m, k)
}

/// `m` after `n` times the inputs have left it. The key set stays.
pub open spec fn consume(m: Map<Seq<char>, nat>, inputs: Seq<(Seq<char>, nat)>, n: nat) -> Map<
    Seq<char>,
    nat,
> {
    Map::new(|k: Seq<char>| m.dom().contains(k), |k: Seq<char>| (m[k] - n * need(inputs, k)) as nat)
}

/// `m` after `n` times the outputs have entered it. Every output name joins the key set.
pub open spec fn produce(m: Map<Seq<char>, nat>, outputs: Seq<(Seq<char>, nat)>, n: nat) -> Map<
    Seq<char>,
    nat,
> {
    Map::new(
        |k: Seq<char>| m.dom().contains(k) || mentions(outputs, k),
        |k: Seq<char>| quantity(m, k) + n * need(outputs, k),
    )
}

/// The snapshot after process `p` has fired `n` times on `m`.
pub open spec fn apply(m: Map<Seq<char>, nat>, p: ProcessView, n: nat) -> Map<Seq<char>, nat> {
    produce(consume(m, p.inputs, n), p.outputs, n)
}

/// The inputs take nothing from any stock.
pub open spec fn consumes_nothing(inputs: Seq<(Seq<char>, nat)>) -> bool {
    forall|k: Seq<char>| #[trigger] need(inputs, k) == 0
}

/// The largest count at which a firing is feasible on `m`; 0 for inputs that
/// take nothing, which no stock bounds.
pub open spec fn max_feasible_runs(m: Map<Seq<char>, nat>, inputs: Seq<(Seq<char>, nat)>) -> nat {
    if consumes_nothing(inputs) {
        0
    } else {
        choose|n: nat| #[trigger] feasible(m, inputs, n) && !feasible(m, inputs, n + 1)
    }
}

/// No quantity of `m` exceeds the machine's range.
pub open spec fn bounded(m: Map<Seq<char>, nat>) -> bool {
    forall|k: Seq<char>| #[trigger] quantity(m, k) <= u64::MAX
}

/// The sum of the quantities that `m` holds of the names in `objectives`.
pub open spec fn tally(m: Map<Seq<char>, nat>, objectives: Seq<Seq<char>>) -> nat
    decreases objectives.len(),
{
    if objectives.len() == 0 {
        0
    } else {
        tally(m, objectives.drop_last()) + quantity(m, objectives.last())
    }
}

/// The need of a prefix grows by the pair that extends it.
pub proof fn lemma_need_take(list: Seq<(Seq<char>, nat)>, i: int, k: Seq<char>)
    requires
        0 <= i < list.len(),
    ensures
        need(list.take(i + 1), k) == need(list.take(i), k) + if list[i].0 == k {
            list[i].1
        } else {
            0
        },
        need(list.take(0), k) == 0,
{
    assert(list.take(i + 1).drop_last() =~= list.take(i));
}

/// A prefix needs no more than the whole list.
pub proof fn lemma_need_prefix(list: Seq<(Seq<char>, nat)>, i: int, k: Seq<char>)
    requires
        0 <= i <= list.len(),
    ensures
        need(list.take(i), k) <= need(list, k),
    decreases list.len() - i,
{
    if i == list.len() {
        assert(list.take(i) =~= list);
    } else {
        lemma_need_take(list, i, k);
        lemma_need_prefix(list, i + 1, k);
    }
}

/// A stock that a list needs is named in it.
pub proof fn lemma_need_mentions(list: Seq<(Seq<char>, nat)>, k: Seq<char>)
    ensures
        need(list, k) > 0 ==> mentions(list, k),
    decreases list.len(),
{
    if list.len() > 0 {
        lemma_need_mentions(list.drop_last(), k);
        if need(list.drop_last(), k) > 0 {
            let i = choose|i: int| 0 <= i < list.drop_last().len() && (#[trigger] list.drop_last()[i]).0 == k;
            assert(list[i].0 == k);
        } else if need(list, k) > 0 {
            assert(list[list.len() - 1].0 == k);
        }
    }
}

/// A firing that is feasible stays feasible at any smaller count.
pub proof fn lemma_feasible_downward(
    m: Map<Seq<char>, nat>,
    inputs: Seq<(Seq<char>, nat)>,
    n: nat,
    smaller: nat,
)
    requires
        feasible(m, inputs, n),
        smaller <= n,
    ensures
        feasible(m, inputs, smaller),
{
    assert forall|k: Seq<char>| smaller * #[trigger] need(inputs, k) <= quantity(m, k) by {
        assert(n * need(inputs, k) <= quantity(m, k));
        assert(smaller * need(inputs, k) <= n * need(inputs, k)) by (nonlinear_arith)
            requires
                smaller <= n,
        ;
    }
}

/// Where the inputs take something, the largest feasible count is the one
/// count that is feasible while the next is not.
pub proof fn lemma_max_feasible_runs(
    m: Map<Seq<char>, nat>,
    inputs: Seq<(Seq<char>, nat)>,
    n: nat,
)
    requires
        feasible(m, inputs, n),
        !feasible(m, inputs, n + 1),
    ensures
        max_feasible_runs(m, inputs) == n,
        !consumes_nothing(inputs),
{
    if consumes_nothing(inputs) {
        assert forall|k: Seq<char>| (n + 1) * #[trigger] need(inputs, k) <= quantity(m, k) by {
            assert(need(inputs, k) == 0);
            assert((n + 1) * 0 == 0);
        }
    }
    let c = max_feasible_runs(m, inputs);
    assert(feasible(m, inputs, c) && !feasible(m, inputs, c + 1));
    if c < n {
        lemma_feasible_downward(m, inputs, n, c + 1);
    }
    if n < c {
        lemma_feasible_downward(m, inputs, c, n + 1);
    }
}

/// A name joins the names of a prefix with the pair that extends it.
pub proof fn lemma_mentions_take(list: Seq<(Seq<char>, nat)>, i: int, k: Seq<char>)
    requires
        0 <= i < list.len(),
    ensures
        mentions(list.take(i + 1), k) <==> mentions(list.take(i), k) || list[i].0 == k,
        !mentions(list.take(0), k),
        mentions(list.take(list.len() as int), k) <==> mentions(list, k),
{
    let a = list.take(i);
    let b = list.take(i + 1);
    if mentions(a, k) {
        let j = choose|j: int| 0 <= j < a.len() && (#[trigger] a[j]).0 == k;
        assert(b[j].0 == k);
    }
    if list[i].0 == k {
        assert(b[i].0 == k);
    }
    if mentions(b, k) {
        let j = choose|j: int| 0 <= j < b.len() && (#[trigger] b[j]).0 == k;
        if j < i {
            assert(a[j].0 == k);
        }
    }
    assert(list.take(list.len() as int) =~= list);
}

/// The total quantity that `list` names for `name`.
pub fn need_of(list: &Vec<(String, u64)>, name: &String) -> (total: u128)
    ensures
        total == need(amounts_view(list@), name@),
{
    let ghost av = amounts_view(list@);
    let mut total: u128 = 0;
    let mut i: usize = 0;
    while i < list.len()
        invariant
            i <= list@.len(),
            av == amounts_view(list@),
            total == need(av.take(i as int), name@),
            total <= i * u64::MAX,
        decreases list@.len() - i,
    {
        proof {
            lemma_need_take(av, i as int, name@);
            assert((i + 1) * u64::MAX <= u128::MAX) by (nonlinear_arith)
                requires
                    i < 0x1_0000_0000_0000_0000,
            ;
        }
        if list[i].0 == *name {
            total = total + list[i].1 as u128;
        }
        i += 1;
    }
    proof {
        assert(av.take(list@.len() as int) =~= av);
    }
    total
}

/// Whether `a` taken `n` times stays within `limit`.
pub fn product_at_most(a: u128, n: u64, limit: u64) -> (b: bool)
    ensures
        b == (a * n <= limit),
{
    if n == 0 || a == 0 {
        assert(a * n == 0) by (nonlinear_arith)
            requires
                n == 0 || a == 0,
        ;
        true
    } else if a > limit as u128 {
        assert(a * n >= a) by (nonlinear_arith)
            requires
                n >= 1,
                a >= 0,
        ;
        false
    } else {
        assert(a * n <= 0xffff_ffff_ffff_ffff * 0xffff_ffff_ffff_ffff) by (nonlinear_arith)
            requires
                0 <= a <= 0xffff_ffff_ffff_ffff,
                0 <= n <= 0xffff_ffff_ffff_ffff,
        ;
        a * (n as u128) <= limit as u128
    }
}

/// At position `i` the inputs name a stock of which `n` times the need is not there.
pub open spec fn short_at(
    m: Map<Seq<char>, nat>,
    inputs: Seq<(Seq<char>, nat)>,
    n: nat,
    i: int,
) -> bool {
    0 <= i < inputs.len() && n * need(inputs, inputs[i].0) > quantity(m, inputs[i].0)
}

/// Position `i` is the first at which the inputs fall short.
pub open spec fn first_short_at(
    m: Map<Seq<char>, nat>,
    inputs: Seq<(Seq<char>, nat)>,
    n: nat,
    i: int,
) -> bool {
    short_at(m, inputs, n, i) && forall|j: int| 0 <= j < i ==> !short_at(m, inputs, n, j)
}

/// The first position at which the inputs fall short.
pub open spec fn first_short(m: Map<Seq<char>, nat>, inputs: Seq<(Seq<char>, nat)>, n: nat) -> int {
    choose|i: int| first_short_at(m, inputs, n, i)
}

/// The first position at which a firing of `count` falls short on `stocks`,
/// if it is not feasible.
pub fn first_shortage(stocks: &Stocks, inputs: &Vec<(String, u64)>, count: u64) -> (r: Option<
    usize,
>)
    ensures
        r is None <==> feasible(stocks@, amounts_view(inputs@), count as nat),
        r is Some ==> r->0 == first_short(stocks@, amounts_view(inputs@), count as nat)
            && first_short_at(stocks@, amounts_view(inputs@), count as nat, r->0 as int),
{
    let ghost av = amounts_view(inputs@);
    let ghost n = count as nat;
    let ghost m = stocks@;
    let mut i: usize = 0;
    while i < inputs.len()
        invariant
            i <= inputs@.len(),
            av == amounts_view(inputs@),
            n == count as nat,
            m == stocks@,
            forall|j: int| 0 <= j < i ==> !short_at(m, av, n, j),
        decreases inputs@.len() - i,
    {
        let total = need_of(inputs, &inputs[i].0);
        let have = stocks.get(&inputs[i].0);
        assert(av[i as int].0 == inputs@[i as int].0@);
        if !product_at_most(total, count, have) {
            proof {
                assert(first_short_at(m, av, n, i as int));
                let c = first_short(m, av, n);
                assert(first_short_at(m, av, n, c));
                if c < i {
                    assert(!short_at(m, av, n, c));
                }
                if i < c {
                    assert(!short_at(m, av, n, i as int));
                }
                assert(n * need(av, av[i as int].0) > quantity(m, av[i as int].0));
            }
            return Some(i);
        }
        i += 1;
    }
    proof {
        assert forall|k: Seq<char>| n * #[trigger] need(av, k) <= quantity(m, k) by {
            lemma_need_mentions(av, k);
            if need(av, k) > 0 {
                let j = choose|j: int| 0 <= j < av.len() && (#[trigger] av[j]).0 == k;
                assert(!short_at(m, av, n, j));
            } else {
                assert(n * 0 == 0);
            }
        }
    }
    None
}

/// Whether a firing of `count` is feasible on `stocks`.
pub fn can_consume(stocks: &Stocks, inputs: &Vec<(String, u64)>, count: u64) -> (b: bool)
    ensures
        b == feasible(stocks@, amounts_view(inputs@), count as nat),
{
    first_shortage(stocks, inputs, count).is_none()
}

/// The largest count at which a firing is feasible on `stocks`, 0 where the
/// inputs take nothing.
pub fn max_runs(stocks: &Stocks, inputs: &Vec<(String, u64)>) -> (best: u64)
    ensures
        best == max_feasible_runs(stocks@, amounts_view(inputs@)),
{
    let ghost av = amounts_view(inputs@);
    let ghost m = stocks@;
    let mut best: u64 = 0;
    let mut constrained = false;
    let ghost mut witness: int = 0;
    let mut i: usize = 0;
    while i < inputs.len()
        invariant
            i <= inputs@.len(),
            av == amounts_view(inputs@),
            m == stocks@,
            !constrained ==> best == 0 && forall|j: int| 0 <= j < i ==> need(av, #[trigger] av[j].0) == 0,
            constrained ==> forall|j: int|
                0 <= j < i ==> best * need(av, #[trigger] av[j].0) <= quantity(m, av[j].0),
            constrained ==> 0 <= witness < i && (best + 1) * need(av, av[witness].0) > quantity(
                m,
                av[witness].0,
            ),
        decreases inputs@.len() - i,
    {
        let total = need_of(inputs, &inputs[i].0);
        let have = stocks.get(&inputs[i].0);
        let ghost k = av[i as int].0;
        assert(k == inputs@[i as int].0@);
        if total > 0 {
            let runs: u64 = if total > have as u128 {
                0
            } else {
                (have as u128 / total) as u64
            };
            assert(runs * total <= have && (runs + 1) * total > have) by (nonlinear_arith)
                requires
                    total > 0,
                    have >= 0,
                    runs == if total > have {
                        0
                    } else {
                        have as int / total as int
                    },
            ;
            if !constrained || runs < best {
                proof {
                    if constrained {
                        assert forall|j: int| 0 <= j < i implies runs * need(av, #[trigger] av[j].0)
                            <= quantity(m, av[j].0) by {
                            let x = need(av, av[j].0);
                            assert(best * x <= quantity(m, av[j].0));
                            assert(runs * x <= best * x) by (nonlinear_arith)
                                requires
                                    runs <= best,
                                    x >= 0,
                            ;
                        }
                    } else {
                        assert forall|j: int| 0 <= j < i implies runs * need(av, #[trigger] av[j].0)
                            <= quantity(m, av[j].0) by {
                            assert(need(av, av[j].0) == 0);
                            assert(runs * 0 == 0);
                        }
                    }
                    witness = i as int;
                }
                best = runs;
            } else {
                assert(best * total <= runs * total) by (nonlinear_arith)
                    requires
                        best <= runs,
                        total >= 0,
                ;
            }
            constrained = true;
        } else {
            assert(best * 0 == 0);
        }
        i += 1;
    }
    proof {
        if constrained {
            assert forall|k: Seq<char>| best * #[trigger] need(av, k) <= quantity(m, k) by {
                lemma_need_mentions(av, k);
                if need(av, k) > 0 {
                    let j = choose|j: int| 0 <= j < av.len() && (#[trigger] av[j]).0 == k;
                    assert(best * need(av, av[j].0) <= quantity(m, av[j].0));
                } else {
                    assert(best * 0 == 0);
                }
            }
            assert(feasible(m, av, best as nat));
            assert(!feasible(m, av, (best + 1) as nat)) by {
                let k = av[witness].0;
                assert((best + 1) * need(av, k) > quantity(m, k));
            }
            lemma_max_feasible_runs(m, av, best as nat);
        } else {
            assert forall|k: Seq<char>| #[trigger] need(av, k) == 0 by {
                lemma_need_mentions(av, k);
                if need(av, k) > 0 {
                    let j = choose|j: int| 0 <= j < av.len() && (#[trigger] av[j]).0 == k;
                    assert(need(av, av[j].0) == 0);
                }
            }
        }
    }
    best
}

/// Takes `count` times the inputs out of `stocks`.
pub fn consume_from(stocks: &mut Stocks, inputs: &Vec<(String, u64)>, count: u64)
    requires
        feasible(old(stocks)@, amounts_view(inputs@), count as nat),
    ensures
        final(stocks)@ == consume(old(stocks)@, amounts_view(inputs@), count as nat),
{
    let ghost av = amounts_view(inputs@);
    let ghost n = count as nat;
    let ghost before = stocks@;
    let mut i: usize = 0;
    proof {
        assert forall|k: Seq<char>| n * need(av.take(0), k) == 0 by {
            assert(av.take(0).len() == 0);
            assert(need(av.take(0), k) == 0);
            assert(n * 0 == 0);
        }
    }
    while i < inputs.len()
        invariant
            i <= inputs@.len(),
            av == amounts_view(inputs@),
            n == count as nat,
            feasible(before, av, n),
            forall|k: Seq<char>| stocks@.dom().contains(k) <==> before.dom().contains(k),
            forall|k: Seq<char>| #[trigger]
                stocks@.dom().contains(k) ==> stocks@[k] == before[k] - n * need(
                    av.take(i as int),
                    k,
                ),
        decreases inputs@.len() - i,
    {
        let ghost k = av[i as int].0;
        let ghost amount = av[i as int].1;
        assert(k == inputs@[i as int].0@);
        proof {
            lemma_need_take(av, i as int, k);
            lemma_need_prefix(av, i + 1, k);
            assert(n * need(av, k) <= quantity(before, k));
            let a = need(av.take(i as int), k);
            let b = need(av.take(i + 1), k);
            let c = need(av, k);
            assert(n * b <= n * c) by (nonlinear_arith)
                requires
                    b <= c,
            ;
            assert(n * b == n * a + n * amount) by (nonlinear_arith)
                requires
                    b == a + amount,
            ;
        }
        if stocks.contains(&inputs[i].0) {
            let have = stocks.get(&inputs[i].0);
            let taken: u64 = inputs[i].1 * count;
            stocks.set(inputs[i].0.clone(), have - taken);
        } else {
            assert(n * amount == 0);
        }
        proof {
            assert forall|x: Seq<char>| #[trigger] stocks@.dom().contains(x) implies stocks@[x]
                == before[x] - n * need(av.take(i + 1), x) by {
                lemma_need_take(av, i as int, x);
            }
        }
        i += 1;
    }
    proof {
        assert(av.take(inputs@.len() as int) =~= av);
        assert forall|x: Seq<char>| #[trigger] stocks@.dom().contains(x) implies stocks@[x] == (
        before[x] - n * need(av, x)) as nat by {
            assert(n * need(av, x) <= quantity(before, x));
        }
        assert(stocks@ =~= consume(before, av, n));
    }
}

/// Whether `count` times the outputs fit on top of `stocks`.
pub fn can_produce(stocks: &Stocks, outputs: &Vec<(String, u64)>, count: u64) -> (b: bool)
    ensures
        b == bounded(produce(stocks@, amounts_view(outputs@), count as nat)),
{
    let ghost av = amounts_view(outputs@);
    let ghost n = count as nat;
    let ghost m = stocks@;
    let mut i: usize = 0;
    while i < outputs.len()
        invariant
            i <= outputs@.len(),
            av == amounts_view(outputs@),
            n == count as nat,
            m == stocks@,
            forall|j: int|
                0 <= j < i ==> quantity(m, av[j].0) + n * need(av, #[trigger] av[j].0) <= u64::MAX,
        decreases outputs@.len() - i,
    {
        let total = need_of(outputs, &outputs[i].0);
        let have = stocks.get(&outputs[i].0);
        let ghost k = av[i as int].0;
        assert(k == outputs@[i as int].0@);
        if !product_at_most(total, count, u64::MAX - have) {
            proof {
                assert(mentions(av, k));
                assert(quantity(produce(m, av, n), k) > u64::MAX);
            }
            return false;
        }
        i += 1;
    }
    proof {
        assert forall|k: Seq<char>| #[trigger] quantity(produce(m, av, n), k) <= u64::MAX by {
            lemma_need_mentions(av, k);
            if mentions(av, k) {
                let j = choose|j: int| 0 <= j < av.len() && (#[trigger] av[j]).0 == k;
                assert(quantity(m, av[j].0) + n * need(av, av[j].0) <= u64::MAX);
            } else {
                assert(n * 0 == 0);
                stocks.lemma_bounded(k);
            }
        }
    }
    true
}

/// Puts `count` times the outputs into `stocks`.
pub fn produce_into(stocks: &mut Stocks, outputs: &Vec<(String, u64)>, count: u64)
    requires
        bounded(produce(old(stocks)@, amounts_view(outputs@), count as nat)),
    ensures
        final(stocks)@ == produce(old(stocks)@, amounts_view(outputs@), count as nat),
{
    let ghost av = amounts_view(outputs@);
    let ghost n = count as nat;
    let ghost before = stocks@;
    let mut i: usize = 0;
    proof {
        assert forall|k: Seq<char>| n * need(av.take(0), k) == 0 && !mentions(av.take(0), k) by {
            assert(av.take(0).len() == 0);
            assert(need(av.take(0), k) == 0);
            assert(n * 0 == 0);
        }
    }
    while i < outputs.len()
        invariant
            i <= outputs@.len(),
            av == amounts_view(outputs@),
            n == count as nat,
            bounded(produce(before, av, n)),
            forall|k: Seq<char>| #[trigger]
                stocks@.dom().contains(k) <==> before.dom().contains(k) || mentions(
                    av.take(i as int),
                    k,
                ),
            forall|k: Seq<char>| #[trigger]
                quantity(stocks@, k) == quantity(before, k) + n * need(av.take(i as int), k),
        decreases outputs@.len() - i,
    {
        let ghost k = av[i as int].0;
        let ghost amount = av[i as int].1;
        assert(k == outputs@[i as int].0@);
        proof {
            lemma_need_take(av, i as int, k);
            lemma_need_prefix(av, i + 1, k);
            let a = need(av.take(i as int), k);
            let b = need(av.take(i + 1), k);
            let c = need(av, k);
            assert(n * b <= n * c) by (nonlinear_arith)
                requires
                    b <= c,
            ;
            assert(n * b == n * a + n * amount) by (nonlinear_arith)
                requires
                    b == a + amount,
            ;
            assert(mentions(av, k));
            assert(quantity(produce(before, av, n), k) <= u64::MAX);
            assert(quantity(stocks@, k) == quantity(before, k) + n * a);
        }
        let have = stocks.get(&outputs[i].0);
        let added: u64 = outputs[i].1 * count;
        let ghost held = stocks@;
        stocks.set(outputs[i].0.clone(), have + added);
        proof {
            assert forall|x: Seq<char>| #[trigger]
                stocks@.dom().contains(x) <==> before.dom().contains(x) || mentions(
                    av.take(i + 1),
                    x,
                ) by {
                lemma_mentions_take(av, i as int, x);
                assert(held.dom().contains(x) <==> before.dom().contains(x) || mentions(
                    av.take(i as int),
                    x,
                ));
            }
            assert forall|x: Seq<char>| #[trigger]
                quantity(stocks@, x) == quantity(before, x) + n * need(av.take(i + 1), x) by {
                lemma_need_take(av, i as int, x);
                assert(quantity(held, x) == quantity(before, x) + n * need(av.take(i as int), x));
            }
        }
        i += 1;
    }
    proof {
        assert(av.take(outputs@.len() as int) =~= av);
        assert forall|x: Seq<char>| stocks@.dom().contains(x) implies stocks@[x] == quantity(
            before,
            x,
        ) + n * need(av, x) by {
            assert(quantity(stocks@, x) == quantity(before, x) + n * need(av.take(outputs@.len() as int), x));
        }
        assert(stocks@ =~= produce(before, av, n));
    }
}

/// The sum of the quantities that `stocks` holds of the names in `objectives`.
pub fn tally_of(stocks: &Stocks, objectives: &Vec<String>) -> (total: u128)
    ensures
        total == tally(stocks@, names_view(objectives@)),
{
    let ghost names = names_view(objectives@);
    let mut total: u128 = 0;
    let mut i: usize = 0;
    while i < objectives.len()
        invariant
            i <= objectives@.len(),
            names == names_view(objectives@),
            total == tally(stocks@, names.take(i as int)),
            total <= i * u64::MAX,
        decreases objectives@.len() - i,
    {
        proof {
            assert(names.take(i + 1).drop_last() =~= names.take(i as int));
            assert((i + 1) * u64::MAX <= u128::MAX) by (nonlinear_arith)
                requires
                    i < 0x1_0000_0000_0000_0000,
            ;
        }
        total = total + stocks.get(&objectives[i]) as u128;
        i += 1;
    }
    proof {
        assert(names.take(objectives@.len() as int) =~= names);
    }
    total
}

/// A problem without stocks, processes or objectives.
pub fn new_data() -> (data: Data)
    ensures
        data@.stocks == Map::<Seq<char>, nat>::empty(),
        data@.processes == Seq::<ProcessView>::empty(),
        data@.objectives == Seq::<Seq<char>>::empty(),
{
    let data = Data { stocks: Stocks::new(), processes: Vec::new(), objectives: Vec::new() };
    assert(data@.processes =~= Seq::<ProcessView>::empty());
    assert(data@.objectives =~= Seq::<Seq<char>>::empty());
    data
}

/// The objective tally of a problem's stocks: what they hold of the objective names, summed.
pub fn objective_value(data: &Data) -> (total: u128)
    ensures
        total == tally(data@.stocks, data@.objectives),
{
    tally_of(&data.stocks, &data.objectives)
}

/// Whether `process` can fire `count` times on the stocks of `data`.
pub fn can_execute(data: &Data, process: &Process, count: u64) -> (b: bool)
    ensures
        b == feasible(data@.stocks, process@.inputs, count as nat),
{
    can_consume(&data.stocks, &process.input, count)
}

/// The snapshot that a firing leaves stays within the machine's range.
pub open spec fn fits_after(m: Map<Seq<char>, nat>, p: ProcessView, n: nat) -> bool {
    bounded(apply(m, p, n))
}

/// Fires `process` `count` times on the stocks of `data`: the inputs leave, the outputs enter.
pub fn execute(data: &mut Data, process: &Process, count: u64)
    requires
        feasible(old(data)@.stocks, process@.inputs, count as nat),
        fits_after(old(data)@.stocks, process@, count as nat),
    ensures
        final(data)@.stocks == apply(old(data)@.stocks, process@, count as nat),
        final(data)@.processes == old(data)@.processes,
        final(data)@.objectives == old(data)@.objectives,
{
    consume_from(&mut data.stocks, &process.input, count);
    produce_into(&mut data.stocks, &process.output, count);
}

/// Whether `process` can fire `count` times on `stocks` and leave a snapshot
/// within the machine's range.
pub fn can_apply(stocks: &Stocks, process: &Process, count: u64) -> (b: bool)
    ensures
        b == (feasible(stocks@, process@.inputs, count as nat) && fits_after(
            stocks@,
            process@,
            count as nat,
        )),
{
    if !can_consume(stocks, &process.input, count) {
        return false;
    }
    let mut rest = stocks.duplicate();
    consume_from(&mut rest, &process.input, count);
    can_produce(&rest, &process.output, count)
}

/// A copy of a list of (stock, quantity) pairs.
pub fn copy_amounts(list: &Vec<(String, u64)>) -> (copy: Vec<(String, u64)>)
    ensures
        amounts_view(copy@) == amounts_view(list@),
{
    let mut copy: Vec<(String, u64)> = Vec::new();
    let mut i: usize = 0;
    while i < list.len()
        invariant
            i <= list@.len(),
            copy@.len() == i,
            forall|j: int|
                0 <= j < i ==> (#[trigger] copy@[j]).0@ == list@[j].0@ && copy@[j].1 == list@[j].1,
        decreases list@.len() - i,
    {
        copy.push((list[i].0.clone(), list[i].1));
        i += 1;
    }
    assert(amounts_view(copy@) =~= amounts_view(list@));
    copy
}

/// A copy of a list of names.
pub fn copy_names(list: &Vec<String>) -> (copy: Vec<String>)
    ensures
        names_view(copy@) == names_view(list@),
{
    let mut copy: Vec<String> = Vec::new();
    let mut i: usize = 0;
    while i < list.len()
        invariant
            i <= list@.len(),
            copy@.len() == i,
            forall|j: int| 0 <= j < i ==> (#[trigger] copy@[j])@ == list@[j]@,
        decreases list@.len() - i,
    {
        copy.push(list[i].clone());
        i += 1;
    }
    assert(names_view(copy@) =~= names_view(list@));
    copy
}

impl Process {
    /// A copy of the process.
    pub fn duplicate(&self) -> (copy: Process)
        ensures
            copy@ == self@,
    {
        Process {
            id: self.id.clone(),
            input: copy_amounts(&self.input),
            output: copy_amounts(&self.output),
            time: self.time,
        }
    }
}

impl Data {
    /// A copy of the problem.
    pub fn duplicate(&self) -> (copy: Data)
        ensures
            copy@ == self@,
    {
        let mut processes: Vec<Process> = Vec::new();
        let mut i: usize = 0;
        while i < self.processes.len()
            invariant
                i <= self.processes@.len(),
                processes@.len() == i,
                forall|j: int| 0 <= j < i ==> (#[trigger] processes@[j])@ == self.processes@[j]@,
            decreases self.processes@.len() - i,
        {
            processes.push(self.processes[i].duplicate());
            i += 1;
        }
        let copy = Data {
            stocks: self.stocks.duplicate(),
            processes,
            objectives: copy_names(&self.objectives),
        };
        assert(copy@.processes =~= self@.processes);
        copy
    }
}

/// Linearity of firing: two firings of one process, each feasible when it is
/// made, leave what one firing of the summed count leaves.
pub proof fn lemma_apply_linear(m: Map<Seq<char>, nat>, p: ProcessView, n1: nat, n2: nat)
    requires
        feasible(m, p.inputs, n1),
        feasible(apply(m, p, n1), p.inputs, n2),
        feasible(m, p.inputs, n1 + n2),
    ensures
        apply(apply(m, p, n1), p, n2) == apply(m, p, n1 + n2),
{
    let first = apply(m, p, n1);
    let both = apply(first, p, n2);
    let once = apply(m, p, n1 + n2);
    assert forall|k: Seq<char>| both.dom().contains(k) == once.dom().contains(k) by {}
    assert forall|k: Seq<char>| #[trigger] both.dom().contains(k) implies both[k] == once[k] by {
        let a = need(p.inputs, k);
        let b = need(p.outputs, k);
        assert(n1 * a <= quantity(m, k));
        assert(n2 * a <= quantity(first, k));
        assert((n1 + n2) * a <= quantity(m, k));
        assert((n1 + n2) * a == n1 * a + n2 * a) by (nonlinear_arith);
        assert((n1 + n2) * b == n1 * b + n2 * b) by (nonlinear_arith);
        lemma_need_mentions(p.outputs, k);
    }
    assert(both =~= once);
}

/// Where the inputs take something, some count is the largest feasible one.
pub proof fn lemma_largest_exists(m: Map<Seq<char>, nat>, inputs: Seq<(Seq<char>, nat)>)
    requires
        !consumes_nothing(inputs),
    ensures
        feasible(m, inputs, max_feasible_runs(m, inputs)),
        !feasible(m, inputs, max_feasible_runs(m, inputs) + 1),
{
    let k = choose|k: Seq<char>| #[trigger] need(inputs, k) != 0;
    let limit = quantity(m, k) + 1;
    assert(!feasible(m, inputs, limit)) by {
        assert(limit * need(inputs, k) >= limit) by (nonlinear_arith)
            requires
                need(inputs, k) >= 1,
                limit >= 0,
        ;
    }
    assert(feasible(m, inputs, 0)) by {
        assert forall|x: Seq<char>| 0 * #[trigger] need(inputs, x) <= quantity(m, x) by {
            assert(0 * need(inputs, x) == 0);
        }
    }
    let n = lemma_boundary(m, inputs, 0, limit);
    lemma_max_feasible_runs(m, inputs, n);
}

/// Between a feasible count and a larger one that is not, some count is feasible
/// while the next is not.
pub proof fn lemma_boundary(
    m: Map<Seq<char>, nat>,
    inputs: Seq<(Seq<char>, nat)>,
    low: nat,
    high: nat,
) -> (n: nat)
    requires
        feasible(m, inputs, low),
        !feasible(m, inputs, high),
        low < high,
    ensures
        low <= n < high,
        feasible(m, inputs, n),
        !feasible(m, inputs, n + 1),
    decreases high - low,
{
    if !feasible(m, inputs, low + 1) {
        low
    } else {
        lemma_boundary(m, inputs, low + 1, high)
    }
}

/// The largest feasible count is monotonic in the snapshot: where no quantity
/// shrinks, the largest feasible count does not shrink.
pub proof fn lemma_max_feasible_runs_monotonic(
    m: Map<Seq<char>, nat>,
    larger: Map<Seq<char>, nat>,
    inputs: Seq<(Seq<char>, nat)>,
)
    requires
        forall|k: Seq<char>| quantity(m, k) <= quantity(larger, k),
    ensures
        max_feasible_runs(m, inputs) <= max_feasible_runs(larger, inputs),
{
    if !consumes_nothing(inputs) {
        lemma_largest_exists(m, inputs);
        lemma_largest_exists(larger, inputs);
        let c = max_feasible_runs(m, inputs);
        let d = max_feasible_runs(larger, inputs);
        assert(feasible(larger, inputs, c)) by {
            assert forall|k: Seq<char>| c * #[trigger] need(inputs, k) <= quantity(larger, k) by {
                assert(c * need(inputs, k) <= quantity(m, k));
                assert(quantity(m, k) <= quantity(larger, k));
            }
        }
        if d < c {
            lemma_feasible_downward(larger, inputs, c, d + 1);
        }
    }
}

} // verus!
