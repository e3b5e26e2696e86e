//! Iterative-deepening A*: rounds of depth-first search, each bounded by a
//! threshold on the elapsed time plus the heuristic estimate, the threshold
//! growing from round to round. The states still to be searched wait on a
//! stack.

use crate::budget::{polls_used, Budget};
use crate::ledger::{lemma_arrive_settled, opening, settled};
use crate::model::{tally, Data, DataView};
use crate::replay::{verdict, Fault};
use crate::run::{expand, follows, initial_run, log_view, Run, RunView};
use crate::search::{
    all_sound, better, calculate_heuristic, children, closed, enter_children, improves,
    lemma_all_seen, lemma_closed_drop, lemma_closed_grow, lemma_met, lemma_reached_start, met,
    node_for, node_view, nodes_view, optimal, ranked, reached, runs_view, same_key, sound, topped,
    walkable, walked, was_seen, Node, NodeView,
};
use crate::stock_scores::{depth_limit, precompute_stock_scores, scores_match};
use crate::stocks::Stocks;
use vstd::prelude::*;

verus! {

/// The search as plain values: the threshold of the round, the states that
/// wait on the stack, the states seen in the round, the best state seen, the
/// least sum that exceeded the threshold in the round, and whether the search
/// has ended.
pub struct IdaView {
    pub threshold: nat,
    pub stack: Seq<NodeView>,
    pub seen: Seq<RunView>,
    pub best: RunView,
    pub least: Option<nat>,
    pub done: bool,
}

/// The lesser of a sum and the least sum so far.
pub open spec fn lower(least: Option<nat>, sum: nat) -> Option<nat> {
    match least {
        Some(held) => if sum < held {
            Some(sum)
        } else {
            Some(held)
        },
        None => Some(sum),
    }
}

/// The search at the start of a round: the initial state waits alone, and
/// nothing is seen.
pub open spec fn round_start(data: DataView, estimate: nat, threshold: nat, best: RunView) -> IdaView {
    IdaView {
        threshold,
        stack: seq![node_for(initial_run(data), data, estimate)],
        seen: Seq::empty(),
        best,
        least: None,
        done: false,
    }
}

/// The search after the state on top of the stack has been taken. A state
/// whose elapsed time plus the estimate exceeds the threshold is not entered:
/// the sum is held against the least one. A state that was seen is not
/// entered either. Any other joins the seen ones, becomes the best if it is
/// better than the best, and the states that its steps lead to go on the
/// stack, that of the first step on top.
pub open spec fn visit(s: IdaView, data: DataView, estimate: nat) -> IdaView {
    let node = s.stack.last();
    let rest = s.stack.drop_last();
    if node.rank > s.threshold {
        IdaView {
            threshold: s.threshold,
            stack: rest,
            seen: s.seen,
            best: s.best,
            least: lower(s.least, node.rank),
            done: false,
        }
    } else if met(s.seen, node.run) {
        IdaView {
            threshold: s.threshold,
            stack: rest,
            seen: s.seen,
            best: s.best,
            least: s.least,
            done: false,
        }
    } else {
        IdaView {
            threshold: s.threshold,
            stack: rest + children(node.run, data, estimate),
            seen: s.seen.push(node.run),
            best: if better(node.run, s.best, data.objectives) {
                node.run
            } else {
                s.best
            },
            least: s.least,
            done: false,
        }
    }
}

/// The search after one more move. With states on the stack the top one is
/// taken. With an empty stack the round ends: where no sum exceeded the
/// threshold, or the least one is the threshold itself, the search ends;
/// else the next round starts with that sum as its threshold.
pub open spec fn ida_step(s: IdaView, data: DataView, estimate: nat) -> IdaView {
    if s.done {
        s
    } else if s.stack.len() > 0 {
        visit(s, data, estimate)
    } else {
        match s.least {
            Some(sum) if sum != s.threshold => round_start(data, estimate, sum, s.best),
            _ => IdaView {
                threshold: s.threshold,
                stack: s.stack,
                seen: s.seen,
                best: s.best,
                least: s.least,
                done: true,
            },
        }
    }
}

/// The search after `n` moves, the first round having the estimate as its threshold.
pub open spec fn ida_walk(data: DataView, estimate: nat, n: nat) -> IdaView
    decreases n,
{
    if n == 0 {
        round_start(data, estimate, estimate, initial_run(data))
    } else {
        ida_step(ida_walk(data, estimate, (n - 1) as nat), data, estimate)
    }
}

/// The least sum, if there is one, as a plain value.
pub open spec fn least_view(least: Option<u128>) -> Option<nat> {
    match least {
        Some(sum) => Some(sum as nat),
        None => None,
    }
}

/// Takes the state on top of `stack` and searches it: one move of the
/// depth-limited search of a round with threshold `limit`. While no sum has
/// exceeded the threshold the search loses no state.
pub fn depth_limited_search(
    stack: &mut Vec<Node>,
    data: &Data,
    estimate: u128,
    limit: u128,
    best: &mut Run,
    seen: &mut Vec<Run>,
    least: &mut Option<u128>,
)
    requires
        old(stack)@.len() > 0,
    ensures
        (IdaView {
            threshold: limit as nat,
            stack: nodes_view(final(stack)@),
            seen: runs_view(final(seen)@),
            best: final(best)@,
            least: least_view(*final(least)),
            done: false,
        }) == visit(
            IdaView {
                threshold: limit as nat,
                stack: nodes_view(old(stack)@),
                seen: runs_view(old(seen)@),
                best: old(best)@,
                least: least_view(*old(least)),
                done: false,
            },
            data@,
            estimate as nat,
        ),
        ranked(old(stack)@, data@, estimate as nat) ==> ranked(
            final(stack)@,
            data@,
            estimate as nat,
        ),
        all_sound(old(stack)@, data@) ==> all_sound(final(stack)@, data@),
        all_sound(old(stack)@, data@) && follows(old(best)@, data@) ==> follows(
            final(best)@,
            data@,
        ),
        all_sound(old(stack)@, data@) && reached(data@, old(best)@) ==> reached(
            data@,
            final(best)@,
        ),
        all_sound(old(stack)@, data@) ==> tally(settled(final(best)@.tick), data@.objectives)
            >= tally(settled(old(best)@.tick), data@.objectives),
        all_sound(old(stack)@, data@) && topped(old(seen)@, old(best)@, data@.objectives)
            ==> topped(final(seen)@, final(best)@, data@.objectives),
        *final(least) is None && closed(old(seen)@, old(stack)@, data@) ==> closed(
            final(seen)@,
            final(stack)@,
            data@,
        ),
        *final(least) is None ==> *old(least) is None,
        ranked(old(stack)@, data@, estimate as nat) && (*old(least) is Some ==> old(least)->0
            > limit) ==> (*final(least) is Some ==> final(least)->0 > limit),
{
    let ghost held = stack@;
    let ghost x = (held.len() - 1) as int;
    let ghost seen_before = seen@;
    let ghost best_before = best@;
    let node = stack.pop().unwrap();
    proof {
        assert(node == held[x]);
        assert(stack@ =~= held.update(x, held.last()).drop_last());
        assert(nodes_view(stack@) =~= nodes_view(held).drop_last());
        assert(nodes_view(held).last() == node_view(node));
        lemma_met(seen@, node.run@);
        if ranked(held, data@, estimate as nat) {
            assert forall|y: int| 0 <= y < stack@.len() implies node_view(#[trigger] stack@[y])
                == node_for(stack@[y].run@, data@, estimate as nat) by {
                assert(stack@[y] == held[y]);
            }
        }
        if all_sound(held, data@) {
            assert(sound(held[x], data@));
            assert forall|y: int| 0 <= y < stack@.len() implies sound(
                #[trigger] stack@[y],
                data@,
            ) by {
                assert(stack@[y] == held[y]);
            }
        }
    }
    if node.rank > limit {
        *least = match *least {
            Some(sum) => if node.rank < sum {
                Some(node.rank)
            } else {
                Some(sum)
            },
            None => Some(node.rank),
        };
    } else if was_seen(seen, &node.run) {
        proof {
            if closed(seen@, held, data@) {
                lemma_closed_drop(seen@, held, x, data@);
            }
        }
    } else {
        let value = node.run.tally(&data.objectives);
        let best_value = best.tally(&data.objectives);
        if improves(value, node.run.time(), best_value, best.time()) {
            *best = node.run.duplicate();
        }
        enter_children(stack, &node.run, data, estimate);
        seen.push(node.run);
        proof {
            assert(runs_view(seen@) =~= runs_view(seen_before).push(held[x].run@));
            assert(seen@ =~= seen_before.push(held[x].run));
            if closed(seen_before, held, data@) {
                lemma_closed_grow(seen_before, held, x, stack@, data@);
            }
            if all_sound(held, data@) && topped(seen_before, best_before, data@.objectives) {
                assert forall|j: int| 0 <= j < seen@.len() implies !better(
                    (#[trigger] seen@[j])@,
                    best@,
                    data@.objectives,
                ) by {
                    if j < seen_before.len() {
                        assert(!better(seen_before[j]@, best_before, data@.objectives));
                    }
                }
            }
        }
    }
}

/// Searches the schedules of `data` in rounds. The budget is polled before
/// each move: before a state is taken from the stack, and before a round
/// ends. The search ends when a poll finds the budget spent or when a round
/// exceeds no threshold. Returns the elapsed time, the stocks and the log of
/// the best schedule seen: that of the search after as many moves as polls
/// found the budget unspent. The rank of a state is its elapsed time plus the
/// sum of the scores of the objectives, and each firing of count `n` lets `n`
/// durations pass. Where the search ends with the budget unspent, no schedule
/// that such firings make is better.
pub fn optimize(data: Data, budget: &mut Budget) -> (r: Option<
    (u64, Stocks, Vec<(String, u64, u64)>),
>)
    ensures
        match r {
            Some(found) => {
                &&& verdict(data@, expand(log_view(found.2@)), found.1@) == Ok::<(), Fault>(())
                &&& tally(found.1@, data@.objectives) >= tally(data@.stocks, data@.objectives)
                &&& exists|path: Seq<(int, nat)>|
                    walkable(data@, path) && found.0 == (#[trigger] walked(data@, path)).time
                        && found.1@ == settled(walked(data@, path).tick) && log_view(found.2@)
                        == walked(data@, path).log && (final(budget).was_spent() || optimal(
                        data@,
                        walked(data@, path),
                    ))
                &&& exists|scores: Map<Seq<char>, nat>|
                    #![trigger tally(scores, data@.objectives)]
                    scores_match(
                        scores,
                        data@,
                        data.stocks.keys().len(),
                        depth_limit(data@.processes),
                    ) && found.0 == ida_walk(
                        data@,
                        tally(scores, data@.objectives),
                        polls_used(old(budget), final(budget)),
                    ).best.time && found.1@ == settled(
                        ida_walk(
                            data@,
                            tally(scores, data@.objectives),
                            polls_used(old(budget), final(budget)),
                        ).best.tick,
                    ) && log_view(found.2@) == ida_walk(
                        data@,
                        tally(scores, data@.objectives),
                        polls_used(old(budget), final(budget)),
                    ).best.log && (final(budget).was_spent() || ida_walk(
                        data@,
                        tally(scores, data@.objectives),
                        polls_used(old(budget), final(budget)),
                    ).done)
            },
            None => false,
        },
        final(budget).remaining() <= old(budget).remaining(),
        old(budget).was_spent() ==> final(budget).remaining() == old(budget).remaining(),
{
    let scores = precompute_stock_scores(&data);
    let estimate = calculate_heuristic(&data.objectives, &scores);
    let ghost gap = estimate as nat;
    let initial = Run::start(&data);
    let initial_tally = initial.tally(&data.objectives);
    let mut best = initial.duplicate();
    proof {
        lemma_reached_start(data@);
        lemma_arrive_settled(opening(data@.stocks), 0);
        assert(settled(opening(data@.stocks)) =~= data@.stocks);
    }
    let mut threshold = estimate;
    let mut stack: Vec<Node> = Vec::new();
    stack.push(Node { run: initial.duplicate(), tally: initial_tally, rank: estimate });
    let mut seen: Vec<Run> = Vec::new();
    let mut least: Option<u128> = None;
    let ghost polls = budget.remaining();
    proof {
        assert(same_key(stack@[0].run@, initial_run(data@)));
        assert(nodes_view(stack@) =~= round_start(data@, gap, gap, best@).stack);
        assert(runs_view(seen@) =~= Seq::<RunView>::empty());
    }
    loop
        invariant_except_break
            (IdaView {
                threshold: threshold as nat,
                stack: nodes_view(stack@),
                seen: runs_view(seen@),
                best: best@,
                least: least_view(least),
                done: false,
            }) == ida_walk(data@, gap, (polls - budget.remaining()) as nat),
        invariant
            gap == estimate as nat,
            polls == old(budget).remaining(),
            budget.remaining() <= polls,
            old(budget).was_spent() ==> budget.was_spent() && budget.remaining() == polls,
            initial@ == initial_run(data@),
            initial_tally == tally(settled(initial@.tick), data@.objectives),
            follows(initial@, data@),
            reached(data@, initial@),
            follows(best@, data@),
            reached(data@, best@),
            tally(settled(best@.tick), data@.objectives) >= tally(
                data@.stocks,
                data@.objectives,
            ),
            ranked(stack@, data@, gap),
            all_sound(stack@, data@),
            topped(seen@, best@, data@.objectives),
            least is None ==> closed(seen@, stack@, data@),
            least is Some ==> least->0 > threshold,
        ensures
            budget.was_spent() || optimal(data@, best@),
            best@ == ida_walk(data@, gap, polls_used(old(budget), &*budget)).best,
            budget.was_spent() || ida_walk(data@, gap, polls_used(old(budget), &*budget)).done,
            budget.remaining() <= polls,
            old(budget).was_spent() ==> budget.remaining() == polls,
        decreases budget.remaining(),
    {
        let ghost made = (polls - budget.remaining()) as nat;
        let ghost state = ida_walk(data@, gap, made);
        if budget.spent() {
            break ;
        }
        proof {
            assert(ida_walk(data@, gap, made + 1) == ida_step(state, data@, gap));
        }
        if stack.len() > 0 {
            depth_limited_search(
                &mut stack,
                &data,
                estimate,
                threshold,
                &mut best,
                &mut seen,
                &mut least,
            );
        } else {
            let next = match least {
                Some(sum) => sum,
                None => threshold,
            };
            if next == threshold {
                proof {
                    assert(least is None);
                    assert(stack@ =~= Seq::<Node>::empty());
                    assert forall|path: Seq<(int, nat)>| walkable(data@, path) implies !better(
                        #[trigger] walked(data@, path),
                        best@,
                        data@.objectives,
                    ) by {
                        lemma_all_seen(seen@, data@, path);
                        let j = choose|j: int|
                            0 <= j < seen@.len() && same_key(
                                (#[trigger] seen@[j])@,
                                walked(data@, path),
                            );
                        assert(!better(seen@[j]@, best@, data@.objectives));
                    }
                }
                break ;
            }
            threshold = next;
            seen = Vec::new();
            least = None;
            stack.push(Node { run: initial.duplicate(), tally: initial_tally, rank: estimate });
            proof {
                assert(same_key(stack@[0].run@, initial_run(data@)));
                assert(nodes_view(stack@) =~= round_start(data@, gap, next as nat, best@).stack);
                assert(runs_view(seen@) =~= Seq::<RunView>::empty());
            }
        }
    }
    proof {
        assert(gap == tally(scores@, data@.objectives));
    }
    Some(best.into_result(&data))
}

} // verus!
