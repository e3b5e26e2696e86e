//! A*-style search: best-first search whose rank folds the heuristic estimate
//! of the objectives into the elapsed time.

use crate::budget::{polls_used, Budget};
use crate::model::{tally, Data};
use crate::replay::{verdict, Fault};
use crate::run::{expand, log_view};
use crate::ledger::settled;
use crate::search::{best_first, calculate_heuristic, optimal, search_walk, walkable, walked};
use crate::stock_scores::{depth_limit, precompute_stock_scores, scores_match};
use crate::stocks::Stocks;
use vstd::prelude::*;

verus! {

/// Searches the schedules of `data` until none is left to expand or the budget
/// is spent. Returns the elapsed time, the stocks and the log of the best
/// schedule seen: the highest objective tally, and of several the shortest.
/// The initial state is seen before the budget is first polled, so there is
/// always a best schedule. Each firing of count `n` lets `n` durations pass.
/// The rank of a state is its elapsed time plus the sum of the scores of the
/// objectives. The schedule is the best one of the search after as many
/// states have left the frontier as polls found the budget unspent. Where the
/// search ends with the budget unspent, no schedule that such firings make is
/// better.
pub fn optimize(data: Data, budget: &mut Budget) -> (r: Option<
    (u64, Stocks, Vec<(String, u64, u64)>),
>)
    ensures
        match r {
            Some(found) => {
                &&& verdict(data@, expand(log_view(found.2@)), found.1@) == Ok::<(), Fault>(())
                &&& tally(found.1@, data@.objectives) >= tally(data@.stocks, data@.objectives)
                &&& exists|path: Seq<(int, nat)>|
                    walkable(data@, path) && found.0 == (#[trigger] walked(data@, path)).time
                        && found.1@ == settled(walked(data@, path).tick) && log_view(found.2@)
                        == walked(data@, path).log && (final(budget).was_spent() || optimal(
                        data@,
                        walked(data@, path),
                    ))
                &&& exists|scores: Map<Seq<char>, nat>|
                    #![trigger tally(scores, data@.objectives)]
                    scores_match(
                        scores,
                        data@,
                        data.stocks.keys().len(),
                        depth_limit(data@.processes),
                    ) && found.0 == search_walk(
                        data@,
                        tally(scores, data@.objectives),
                        polls_used(old(budget), final(budget)),
                    ).best.time && found.1@ == settled(
                        search_walk(
                            data@,
                            tally(scores, data@.objectives),
                            polls_used(old(budget), final(budget)),
                        ).best.tick,
                    ) && log_view(found.2@) == search_walk(
                        data@,
                        tally(scores, data@.objectives),
                        polls_used(old(budget), final(budget)),
                    ).best.log && (final(budget).was_spent() || search_walk(
                        data@,
                        tally(scores, data@.objectives),
                        polls_used(old(budget), final(budget)),
                    ).frontier.len() == 0)
            },
            None => false,
        },
        final(budget).remaining() <= old(budget).remaining(),
        old(budget).was_spent() ==> final(budget).remaining() == old(budget).remaining(),
{
    let scores = precompute_stock_scores(&data);
    let estimate = calculate_heuristic(&data.objectives, &scores);
    assert(estimate as nat == tally(scores@, data@.objectives));
    let best = best_first(&data, budget, estimate);
    Some(best.into_result(&data))
}

} // verus!
