//! The account of a schedule in progress. What the firings of the current
//! tick produce waits beside the stocks they can draw on, and joins them when
//! the clock moves on.

use crate::model::{
    bounded, consume, consume_from, feasible, lemma_need_mentions, mentions, need, need_of,
    produce, produce_into, product_at_most, amounts_view, Process, ProcessView,
};
use crate::stocks::{quantity, Stocks};
use vstd::prelude::*;

verus! {

/// Two snapshots joined: the key sets united, the quantities summed.
pub open spec fn merge(a: Map<Seq<char>, nat>, b: Map<Seq<char>, nat>) -> Map<Seq<char>, nat> {
    Map::new(
        |k: Seq<char>| a.dom().contains(k) || b.dom().contains(k),
        |k: Seq<char>| quantity(a, k) + quantity(b, k),
    )
}

/// The account as plain values: the stocks that firings can draw on, the
/// outputs of the current tick that wait, and the time of the current tick.
pub struct Tick {
    pub visible: Map<Seq<char>, nat>,
    pub pending: Map<Seq<char>, nat>,
    pub clock: Option<nat>,
}

/// The account before any firing.
pub open spec fn opening(stocks: Map<Seq<char>, nat>) -> Tick {
    Tick { visible: stocks, pending: Map::empty(), clock: None }
}

/// The account when a firing at time `t` comes in: at a new time the waiting
/// outputs join the visible stocks.
pub open spec fn arrive(s: Tick, t: nat) -> Tick {
    if s.clock == Some(t) {
        s
    } else {
        Tick { visible: merge(s.visible, s.pending), pending: Map::empty(), clock: Some(t) }
    }
}

/// The account after `p` has fired `n` times within the current tick: the
/// inputs leave the visible stocks, the outputs wait.
pub open spec fn fire(s: Tick, p: ProcessView, n: nat) -> Tick {
    Tick {
        visible: consume(s.visible, p.inputs, n),
        pending: produce(s.pending, p.outputs, n),
        clock: s.clock,
    }
}

/// All that the account holds, visible or waiting.
pub open spec fn settled(s: Tick) -> Map<Seq<char>, nat> {
    merge(s.visible, s.pending)
}

/// Of no stock does the account hold more than the machine can count.
pub open spec fn fits(s: Tick) -> bool {
    bounded(settled(s))
}

/// The account of a schedule in progress. Of no stock does it ever hold more
/// than the machine can count.
pub struct Ledger {
    visible: Stocks,
    pending: Stocks,
    clock: Option<u64>,
}

impl View for Ledger {
    type V = Tick;

    closed spec fn view(&self) -> Tick {
        Tick {
            visible: self.visible@,
            pending: self.pending@,
            clock: match self.clock {
                Some(t) => Some(t as nat),
                None => None,
            },
        }
    }
}

/// Joining an empty snapshot changes nothing but leaves the sum exact.
pub proof fn lemma_merge_empty(a: Map<Seq<char>, nat>)
    ensures
        merge(merge(a, Map::empty()), Map::empty()) == merge(a, Map::empty()),
        forall|k: Seq<char>| quantity(merge(a, Map::empty()), k) == quantity(a, k),
        merge(a, Map::empty()) == a,
{
    assert(merge(a, Map::empty()) =~= a);
}

/// A prefix holds what the prefix before it holds, and the element that extends it.
pub proof fn lemma_take_contains<A>(s: Seq<A>, i: int, x: A)
    requires
        0 <= i < s.len(),
    ensures
        s.take(i + 1).contains(x) <==> s.take(i).contains(x) || x == s[i],
{
    let a = s.take(i);
    let b = s.take(i + 1);
    if a.contains(x) {
        let j = choose|j: int| 0 <= j < a.len() && a[j] == x;
        assert(b[j] == x);
    }
    if x == s[i] {
        assert(b[i] == x);
    }
    if b.contains(x) {
        let j = choose|j: int| 0 <= j < b.len() && b[j] == x;
        if j < i {
            assert(a[j] == x);
        }
    }
}

/// Arriving keeps what the account holds in all.
pub proof fn lemma_arrive_settled(s: Tick, t: nat)
    ensures
        settled(arrive(s, t)) == settled(s),
        fits(s) ==> fits(arrive(s, t)),
        arrive(arrive(s, t), t) == arrive(s, t),
{
    assert(settled(arrive(s, t)) =~= settled(s));
}

/// What the account holds of a stock after a firing within the tick.
pub proof fn lemma_settled_fire(s: Tick, p: ProcessView, n: nat, k: Seq<char>)
    requires
        feasible(s.visible, p.inputs, n),
    ensures
        quantity(settled(fire(s, p, n)), k) == quantity(s.visible, k) - n * need(p.inputs, k)
            + quantity(s.pending, k) + n * need(p.outputs, k),
        n * need(p.inputs, k) <= quantity(s.visible, k),
{
    let x = need(p.inputs, k);
    let y = need(p.outputs, k);
    assert(n * x <= quantity(s.visible, k));
    lemma_need_mentions(p.outputs, k);
    if y == 0 {
        assert(n * y == 0) by (nonlinear_arith)
            requires
                y == 0,
        ;
    }
    let after = fire(s, p, n);
    assert(quantity(after.visible, k) == quantity(s.visible, k) - n * x);
    assert(quantity(after.pending, k) == quantity(s.pending, k) + n * y);
}

impl Ledger {
    /// The invariant of the type: the account fits.
    #[verifier::type_invariant]
    pub closed spec fn wf(self) -> bool {
        fits(self@)
    }

    /// An account fits.
    pub proof fn lemma_fits(&self)
        requires
            self.wf(),
        ensures
            fits(self@),
    {
    }

    /// The account that holds `stocks` and nothing else.
    pub fn open(stocks: &Stocks) -> (ledger: Ledger)
        ensures
            ledger@ == opening(stocks@),
    {
        let visible = stocks.duplicate();
        let pending = Stocks::new();
        proof {
            let tick = Tick { visible: visible@, pending: pending@, clock: None };
            assert forall|k: Seq<char>| #[trigger] quantity(settled(tick), k) <= u64::MAX by {
                stocks.lemma_bounded(k);
            }
        }
        Ledger { visible, pending, clock: None }
    }

    /// The stocks that a firing can draw on.
    pub fn visible(&self) -> (stocks: &Stocks)
        ensures
            stocks@ == self@.visible,
    {
        &self.visible
    }

    /// The outputs of the current tick, which wait.
    pub fn pending(&self) -> (stocks: &Stocks)
        ensures
            stocks@ == self@.pending,
    {
        &self.pending
    }

    /// All that the account holds, visible or waiting, as one snapshot.
    pub fn merged(&self) -> (total: Stocks)
        ensures
            total@ == settled(self@),
    {
        proof {
            use_type_invariant(self);
        }
        let mut total = self.visible.duplicate();
        let ghost keys = self.pending.keys();
        proof {
            use_type_invariant(&self.pending);
            self.pending.lemma_keys();
        }
        let mut i: usize = 0;
        while i < self.pending.len()
            invariant
                i <= keys.len(),
                keys == self.pending.keys(),
                keys.no_duplicates(),
                fits(self@),
                forall|k: Seq<char>| self.pending@.dom().contains(k) <==> keys.contains(k),
                forall|k: Seq<char>| #[trigger]
                    total@.dom().contains(k) <==> self.visible@.dom().contains(k) || keys.take(
                        i as int,
                    ).contains(k),
                forall|k: Seq<char>| #[trigger]
                    quantity(total@, k) == quantity(self.visible@, k) + if keys.take(
                        i as int,
                    ).contains(k) {
                        self.pending@[k]
                    } else {
                        0
                    },
            decreases keys.len() - i,
        {
            let ghost k = keys[i as int];
            let q = self.pending.amount_at(i);
            let have = total.get(self.pending.name_at(i));
            let ghost held = total@;
            proof {
                assert(!keys.take(i as int).contains(k)) by {
                    let front = keys.take(i as int);
                    if front.contains(k) {
                        let j = choose|j: int| 0 <= j < front.len() && front[j] == k;
                        assert(keys[j] == keys[i as int]);
                    }
                }
                assert(quantity(held, k) == quantity(self.visible@, k));
                assert(quantity(settled(self@), k) <= u64::MAX);
            }
            total.set(self.pending.name_at(i).clone(), have + q);
            proof {
                assert forall|x: Seq<char>|
                    keys.take(i + 1).contains(x) <==> keys.take(i as int).contains(x) || x
                        == k by {
                    lemma_take_contains(keys, i as int, x);
                }
                assert forall|x: Seq<char>| #[trigger]
                    total@.dom().contains(x) <==> self.visible@.dom().contains(x) || keys.take(
                        i + 1,
                    ).contains(x) by {
                    assert(held.dom().contains(x) <==> self.visible@.dom().contains(x)
                        || keys.take(i as int).contains(x));
                }
                assert forall|x: Seq<char>| #[trigger]
                    quantity(total@, x) == quantity(self.visible@, x) + if keys.take(
                        i + 1,
                    ).contains(x) {
                        self.pending@[x]
                    } else {
                        0
                    } by {
                    assert(quantity(held, x) == quantity(self.visible@, x) + if keys.take(
                        i as int,
                    ).contains(x) {
                        self.pending@[x]
                    } else {
                        0
                    });
                }
            }
            i += 1;
        }
        proof {
            assert(keys.take(keys.len() as int) =~= keys);
            assert forall|x: Seq<char>| total@.dom().contains(x) implies total@[x] == quantity(
                self.visible@,
                x,
            ) + quantity(self.pending@, x) by {
                assert(quantity(total@, x) == quantity(self.visible@, x) + if keys.take(
                    keys.len() as int,
                ).contains(x) {
                    self.pending@[x]
                } else {
                    0
                });
            }
            assert(total@ =~= settled(self@));
        }
        total
    }

    /// Takes in the time of the next firing: at a new time the waiting outputs
    /// join the visible stocks.
    pub fn arrive(&mut self, t: u64)
        ensures
            final(self)@ == arrive(old(self)@, t as nat),
    {
        let same = match self.clock {
            Some(c) => c == t,
            None => false,
        };
        proof {
            use_type_invariant(&*self);
            lemma_arrive_settled(self@, t as nat);
        }
        if !same {
            let total = self.merged();
            *self = Ledger { visible: total, pending: Stocks::new(), clock: Some(t) };
        }
    }

    /// Whether the account still fits after `process` has fired `count` times.
    pub fn can_fit(&self, process: &Process, count: u64) -> (b: bool)
        requires
            feasible(self@.visible, process@.inputs, count as nat),
        ensures
            b == fits(fire(self@, process@, count as nat)),
    {
        proof {
            use_type_invariant(self);
        }
        let ghost ins = amounts_view(process.input@);
        let ghost outs = amounts_view(process.output@);
        let ghost n = count as nat;
        let ghost after = settled(fire(self@, process@, n));
        let mut j: usize = 0;
        while j < process.output.len()
            invariant
                j <= process.output@.len(),
                ins == amounts_view(process.input@),
                outs == amounts_view(process.output@),
                n == count as nat,
                after == settled(fire(self@, process@, n)),
                fits(self@),
                feasible(self@.visible, ins, n),
                forall|i: int| 0 <= i < j ==> quantity(after, (#[trigger] outs[i]).0) <= u64::MAX,
            decreases process.output@.len() - j,
        {
            let ghost k = outs[j as int].0;
            assert(k == process.output@[j as int].0@);
            let have = self.visible.get(&process.output[j].0);
            let waiting = self.pending.get(&process.output[j].0);
            let taken = need_of(&process.input, &process.output[j].0);
            let made = need_of(&process.output, &process.output[j].0);
            proof {
                assert(n * need(ins, k) <= quantity(self@.visible, k));
                assert(quantity(settled(self@), k) <= u64::MAX);
                assert(mentions(outs, k));
            }
            let used: u64 = if count == 0 {
                assert(n * taken == 0);
                0
            } else {
                assert(taken <= n * taken) by (nonlinear_arith)
                    requires
                        n >= 1,
                        taken >= 0,
                ;
                (taken as u64) * count
            };
            let room: u64 = u64::MAX - (have - used) - waiting;
            proof {
                let next = fire(self@, process@, n);
                assert(used == n * taken) by (nonlinear_arith)
                    requires
                        used == if count == 0 {
                            0
                        } else {
                            taken * count
                        },
                        n == count,
                ;
                assert(quantity(next.pending, k) == waiting + n * made);
                assert(quantity(next.visible, k) == have - n * taken);
                assert(made * count == n * made) by (nonlinear_arith)
                    requires
                        n == count,
                ;
                assert(quantity(after, k) == (have - used) + waiting + made * count);
            }
            if !product_at_most(made, count, room) {
                return false;
            }
            j += 1;
        }
        proof {
            assert forall|k: Seq<char>| #[trigger] quantity(after, k) <= u64::MAX by {
                lemma_need_mentions(outs, k);
                assert(n * need(ins, k) <= quantity(self@.visible, k));
                assert(quantity(settled(self@), k) <= u64::MAX);
                if mentions(outs, k) {
                    let i = choose|i: int| 0 <= i < outs.len() && (#[trigger] outs[i]).0 == k;
                    assert(quantity(after, outs[i].0) <= u64::MAX);
                } else {
                    assert(n * 0 == 0);
                }
            }
        }
        true
    }

    /// Fires `process` `count` times within the current tick.
    pub fn fire(&mut self, process: &Process, count: u64)
        requires
            feasible(old(self)@.visible, process@.inputs, count as nat),
            fits(fire(old(self)@, process@, count as nat)),
        ensures
            final(self)@ == fire(old(self)@, process@, count as nat),
    {
        proof {
            let after = fire(self@, process@, count as nat);
            assert forall|k: Seq<char>| #[trigger] quantity(after.pending, k) <= u64::MAX by {
                assert(quantity(settled(after), k) <= u64::MAX);
            }
        }
        let mut held = Ledger { visible: Stocks::new(), pending: Stocks::new(), clock: None };
        proof {
            assert(settled(held@) =~= Map::<Seq<char>, nat>::empty());
        }
        std::mem::swap(self, &mut held);
        let Ledger { visible, pending, clock } = held;
        let mut visible = visible;
        let mut pending = pending;
        consume_from(&mut visible, &process.input, count);
        produce_into(&mut pending, &process.output, count);
        *self = Ledger { visible, pending, clock };
    }

    /// A copy of the account.
    pub fn duplicate(&self) -> (copy: Ledger)
        ensures
            copy@ == self@,
    {
        proof {
            use_type_invariant(self);
        }
        Ledger {
            visible: self.visible.duplicate(),
            pending: self.pending.duplicate(),
            clock: self.clock,
        }
    }

    /// Whether two accounts hold the same stocks, visible and waiting, at the same time.
    pub fn same_as(&self, other: &Ledger) -> (b: bool)
        ensures
            b <==> self@ == other@,
    {
        let same_clock = match (self.clock, other.clock) {
            (Some(a), Some(b)) => a == b,
            (None, None) => true,
            _ => false,
        };
        same_clock && self.visible.same_as(&other.visible) && self.pending.same_as(&other.pending)
    }
}

} // verus!
