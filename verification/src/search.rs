//! What the informed searches share: the states of the frontier, the
//! expansion of a state, and the record of the best state seen.

use crate::budget::{polls_used, Budget};
use crate::ledger::{lemma_arrive_settled, opening, settled};
use crate::model::{names_view, tally, Data, DataView};
use crate::run::{can_fire, fired, follows, initial_run, Run, RunView};
use crate::sgs::batch;
use vstd::prelude::*;

verus! {

/// A state of the search: a run, its objective tally, and the rank by which
/// the frontier orders it within one tally.
pub struct Node {
    pub run: Run,
    pub tally: u128,
    pub rank: u128,
}

/// The node holds a run that follows the problem and was reached by steps
/// from its initial stocks, and the tally of that run.
pub open spec fn sound(node: Node, data: DataView) -> bool {
    &&& follows(node.run@, data)
    &&& reached(data, node.run@)
    &&& node.tally == tally(settled(node.run@.tick), data.objectives)
}

/// One node comes before another in the frontier: a lower tally, or the same
/// tally at a lower rank.
pub open spec fn before(a: Node, b: Node) -> bool {
    a.tally < b.tally || (a.tally == b.tally && a.rank < b.rank)
}

/// Position `x` holds the node that leaves the frontier next: no node comes
/// before it, and it is the first such.
pub open spec fn least_at(list: Seq<Node>, x: int) -> bool {
    &&& 0 <= x < list.len()
    &&& forall|y: int| 0 <= y < list.len() ==> !before(#[trigger] list[y], list[x])
    &&& forall|y: int| 0 <= y < x ==> before(list[x], #[trigger] list[y])
}

/// Takes the next node out of the frontier; the last node takes its place.
pub fn pop_least(frontier: &mut Vec<Node>) -> (r: Option<Node>)
    ensures
        old(frontier)@.len() == 0 ==> r is None && final(frontier)@ == old(frontier)@,
        old(frontier)@.len() > 0 ==> r is Some && exists|x: int|
            least_at(old(frontier)@, x) && r->0 == old(frontier)@[x] && final(frontier)@ == old(
                frontier,
            )@.update(x, old(frontier)@.last()).drop_last(),
{
    if frontier.len() == 0 {
        return None;
    }
    let mut best: usize = 0;
    let mut i: usize = 1;
    while i < frontier.len()
        invariant
            1 <= i <= frontier@.len(),
            best < i,
            forall|y: int| 0 <= y < i ==> !before(#[trigger] frontier@[y], frontier@[best as int]),
            forall|y: int| 0 <= y < best ==> before(frontier@[best as int], #[trigger] frontier@[y]),
        decreases frontier@.len() - i,
    {
        let lower = frontier[i].tally < frontier[best].tally || (frontier[i].tally
            == frontier[best].tally && frontier[i].rank < frontier[best].rank);
        if lower {
            best = i;
        }
        i += 1;
    }
    assert(least_at(frontier@, best as int));
    Some(frontier.swap_remove(best))
}

/// A step of the search: the process fired, the count, and the run it leads to.
pub struct Step {
    pub index: usize,
    pub count: u64,
    pub run: Run,
}

/// Process `i` can fire `c` times in a row from `run`: the count is within
/// its batch, and the time that `c` durations take can pass.
pub open spec fn can_step(run: RunView, data: DataView, i: int, c: nat) -> bool {
    &&& 0 <= i < data.processes.len()
    &&& 1 <= c <= batch(run, data, i)
    &&& can_fire(run, data, i, c, c * data.processes[i].duration)
}

/// The run after process `i` has fired `c` times in a row from `run`.
pub open spec fn stepped(run: RunView, data: DataView, i: int, c: nat) -> RunView {
    fired(run, data.processes[i], c, c * data.processes[i].duration)
}

/// The run after the steps of `path`, each a process and a count, from the
/// initial stocks.
pub open spec fn walked(data: DataView, path: Seq<(int, nat)>) -> RunView
    decreases path.len(),
{
    if path.len() == 0 {
        initial_run(data)
    } else {
        stepped(walked(data, path.drop_last()), data, path.last().0, path.last().1)
    }
}

/// Each step of `path` can be made where it is made.
pub open spec fn walkable(data: DataView, path: Seq<(int, nat)>) -> bool
    decreases path.len(),
{
    path.len() == 0 || (walkable(data, path.drop_last()) && can_step(
        walked(data, path.drop_last()),
        data,
        path.last().0,
        path.last().1,
    ))
}

/// The run is reached by steps from the initial stocks: each step fires one
/// process some times in a row, and lets as many durations pass.
pub open spec fn reached(data: DataView, run: RunView) -> bool {
    exists|path: Seq<(int, nat)>| walkable(data, path) && run == #[trigger] walked(data, path)
}

/// The initial run is reached.
pub proof fn lemma_reached_start(data: DataView)
    ensures
        reached(data, initial_run(data)),
{
    let path = Seq::<(int, nat)>::empty();
    assert(walkable(data, path) && initial_run(data) == walked(data, path));
}

/// One more step from a run that is reached reaches a run.
pub proof fn lemma_reached_step(data: DataView, run: RunView, i: int, c: nat)
    requires
        reached(data, run),
        can_step(run, data, i, c),
    ensures
        reached(data, stepped(run, data, i, c)),
{
    let path = choose|path: Seq<(int, nat)>|
        walkable(data, path) && run == #[trigger] walked(data, path);
    let longer = path.push((i, c));
    assert(longer.drop_last() =~= path);
    assert(walkable(data, longer) && stepped(run, data, i, c) == walked(data, longer));
}

/// The steps are all that can be made from `run`, ordered by process and count.
pub open spec fn steps_of(list: Seq<Step>, run: RunView, data: DataView) -> bool {
    &&& forall|x: int|
        0 <= x < list.len() ==> can_step(
            run,
            data,
            (#[trigger] list[x]).index as int,
            list[x].count as nat,
        ) && list[x].run@ == stepped(run, data, list[x].index as int, list[x].count as nat) && (
        follows(run, data) ==> follows(list[x].run@, data))
    &&& forall|x: int, y: int|
        0 <= x < y < list.len() ==> (#[trigger] list[x]).index < (#[trigger] list[y]).index || (
        list[x].index == list[y].index && list[x].count < list[y].count)
    &&& forall|i: int, c: nat| #[trigger]
        can_step(run, data, i, c) ==> exists|x: int|
            0 <= x < list.len() && (#[trigger] list[x]).index == i && list[x].count == c
}

/// The steps that process `i` can make from `run` at the counts from 1 up to
/// `upto`, in rising order.
pub open spec fn counted(run: RunView, data: DataView, i: int, upto: nat) -> Seq<(int, nat)>
    decreases upto,
{
    if upto == 0 {
        Seq::empty()
    } else if can_step(run, data, i, upto) {
        counted(run, data, i, (upto - 1) as nat).push((i, upto))
    } else {
        counted(run, data, i, (upto - 1) as nat)
    }
}

/// The steps that the first `n` processes can make from `run`, process after
/// process, each at every count from 1 up to its batch.
pub open spec fn all_steps(run: RunView, data: DataView, n: int) -> Seq<(int, nat)>
    decreases n,
{
    if n <= 0 {
        Seq::empty()
    } else {
        all_steps(run, data, n - 1) + counted(run, data, n - 1, batch(run, data, n - 1))
    }
}

/// A list of steps as plain values: process and count.
pub open spec fn steps_view(list: Seq<Step>) -> Seq<(int, nat)> {
    Seq::new(list.len(), |x: int| (list[x].index as int, list[x].count as nat))
}

/// The steps from `run`: every process at every count from 1 up to its batch,
/// where the firing can be made.
pub fn successors(run: &Run, data: &Data) -> (list: Vec<Step>)
    ensures
        steps_of(list@, run@, data@),
        steps_view(list@) == all_steps(run@, data@, data@.processes.len() as int),
{
    let mut list: Vec<Step> = Vec::new();
    let mut i: usize = 0;
    assert(steps_view(list@) =~= all_steps(run@, data@, 0));
    while i < data.processes.len()
        invariant
            i <= data.processes@.len(),
            steps_view(list@) == all_steps(run@, data@, i as int),
            forall|x: int|
                0 <= x < list@.len() ==> can_step(
                    run@,
                    data@,
                    (#[trigger] list@[x]).index as int,
                    list@[x].count as nat,
                ) && list@[x].run@ == stepped(
                    run@,
                    data@,
                    list@[x].index as int,
                    list@[x].count as nat,
                ) && (follows(run@, data@) ==> follows(list@[x].run@, data@)) && list@[x].index
                    < i,
            forall|x: int, y: int|
                0 <= x < y < list@.len() ==> (#[trigger] list@[x]).index < (
                #[trigger] list@[y]).index || (list@[x].index == list@[y].index && list@[x].count
                    < list@[y].count),
            forall|j: int, c: nat|
                0 <= j < i && #[trigger] can_step(run@, data@, j, c) ==> exists|x: int|
                    0 <= x < list@.len() && (#[trigger] list@[x]).index == j && list@[x].count
                        == c,
        decreases data.processes@.len() - i,
    {
        let process = &data.processes[i];
        assert(data@.processes[i as int] == process@);
        let most = run.max_runs(process);
        let mut done: u64 = 0;
        assert(steps_view(list@) =~= all_steps(run@, data@, i as int) + counted(
            run@,
            data@,
            i as int,
            0,
        ));
        while done < most
            invariant
                i < data.processes@.len(),
                done <= most,
                steps_view(list@) == all_steps(run@, data@, i as int) + counted(
                    run@,
                    data@,
                    i as int,
                    done as nat,
                ),
                most == batch(run@, data@, i as int),
                data@.processes[i as int] == process@,
                forall|x: int|
                    0 <= x < list@.len() ==> can_step(
                        run@,
                        data@,
                        (#[trigger] list@[x]).index as int,
                        list@[x].count as nat,
                    ) && list@[x].run@ == stepped(
                        run@,
                        data@,
                        list@[x].index as int,
                        list@[x].count as nat,
                    ) && (follows(run@, data@) ==> follows(list@[x].run@, data@)) && (
                    list@[x].index < i || (list@[x].index == i && list@[x].count <= done)),
                forall|x: int, y: int|
                    0 <= x < y < list@.len() ==> (#[trigger] list@[x]).index < (
                    #[trigger] list@[y]).index || (list@[x].index == list@[y].index
                        && list@[x].count < list@[y].count),
                forall|j: int, c: nat|
                    (0 <= j < i || (j == i && c <= done)) && #[trigger] can_step(
                        run@,
                        data@,
                        j,
                        c,
                    ) ==> exists|x: int|
                        0 <= x < list@.len() && (#[trigger] list@[x]).index == j
                            && list@[x].count == c,
            decreases most - done,
        {
            let count = done + 1;
            let ghost held = list@;
            let ghost shown = steps_view(list@);
            match process.time.checked_mul(count) {
                Some(advance) => {
                    assert(advance == (count as nat) * process@.duration) by (nonlinear_arith)
                        requires
                            advance == process.time * count,
                            process@.duration == process.time,
                    ;
                    if run.can_fire(data, i, count, advance) {
                        let mut next = run.duplicate();
                        next.fire(data, i, count, advance);
                        list.push(Step { index: i, count, run: next });
                        assert(steps_view(list@) =~= shown.push((i as int, count as nat)));
                        assert(shown.push((i as int, count as nat)) =~= all_steps(
                            run@,
                            data@,
                            i as int,
                        ) + counted(run@, data@, i as int, count as nat));
                    }
                },
                None => {
                    assert(!can_step(run@, data@, i as int, count as nat)) by {
                        assert((count as nat) * process@.duration == process.time * count)
                            by (nonlinear_arith)
                            requires
                                process@.duration == process.time,
                        ;
                    }
                },
            }
            proof {
                assert forall|j: int, c: nat|
                    (0 <= j < i || (j == i && c <= count)) && #[trigger] can_step(
                        run@,
                        data@,
                        j,
                        c,
                    ) implies exists|x: int|
                    0 <= x < list@.len() && (#[trigger] list@[x]).index == j && list@[x].count
                        == c by {
                    if j < i || c <= done {
                        let x = choose|x: int|
                            0 <= x < held.len() && (#[trigger] held[x]).index == j && held[x].count
                                == c;
                        assert(list@[x].index == j);
                    } else {
                        assert(list@[held.len() as int].index == j);
                    }
                }
            }
            done = count;
        }
        i += 1;
    }
    proof {
        assert forall|j: int, c: nat| #[trigger] can_step(run@, data@, j, c) implies exists|x: int|
            0 <= x < list@.len() && (#[trigger] list@[x]).index == j && list@[x].count == c by {
            assert(0 <= j < data@.processes.len());
        }
    }
    list
}

/// Whether a state with `tally` at `time` improves on the best one seen: a
/// higher tally, or the same tally in less time.
pub fn improves(tally: u128, time: u64, best_tally: u128, best_time: u64) -> (b: bool)
    ensures
        b == (tally > best_tally || (tally == best_tally && time < best_time)),
{
    tally > best_tally || (tally == best_tally && time < best_time)
}

/// Two runs stand at the same time with the same account.
pub open spec fn same_key(a: RunView, b: RunView) -> bool {
    a.time == b.time && a.tick == b.tick
}

/// A run of `seen` stands at the same time with the same account as `r`.
pub open spec fn among(seen: Seq<Run>, r: RunView) -> bool {
    exists|j: int| 0 <= j < seen.len() && same_key((#[trigger] seen[j])@, r)
}

/// A node of the frontier stands at the same time with the same account as `r`.
pub open spec fn waiting(frontier: Seq<Node>, r: RunView) -> bool {
    exists|j: int| 0 <= j < frontier.len() && same_key((#[trigger] frontier[j]).run@, r)
}

/// Whether `seen` holds a run at the same time with the same account as `run`.
pub fn was_seen(seen: &Vec<Run>, run: &Run) -> (b: bool)
    ensures
        b == among(seen@, run@),
{
    let mut i: usize = 0;
    while i < seen.len()
        invariant
            i <= seen@.len(),
            forall|j: int| 0 <= j < i ==> !same_key((#[trigger] seen@[j])@, run@),
        decreases seen@.len() - i,
    {
        if seen[i].same_state(run) {
            return true;
        }
        i += 1;
    }
    false
}

/// The sum of the scores that `scores` holds for the names in `objectives`.
pub fn calculate_heuristic(objectives: &Vec<String>, scores: &crate::stocks::Stocks) -> (total:
    u128)
    ensures
        total == tally(scores@, names_view(objectives@)),
{
    crate::model::tally_of(scores, objectives)
}

/// One run is better than another: a higher objective tally, or the same
/// tally in less time.
pub open spec fn better(a: RunView, b: RunView, objectives: Seq<Seq<char>>) -> bool {
    tally(settled(a.tick), objectives) > tally(settled(b.tick), objectives) || (tally(
        settled(a.tick),
        objectives,
    ) == tally(settled(b.tick), objectives) && a.time < b.time)
}

/// No run that steps reach from the initial stocks is better than `best`.
pub open spec fn optimal(data: DataView, best: RunView) -> bool {
    forall|path: Seq<(int, nat)>|
        walkable(data, path) ==> !better(#[trigger] walked(data, path), best, data.objectives)
}

/// The search has lost no state: the initial state is seen or waits in the
/// frontier, and so does every state that one step reaches from a seen one.
pub open spec fn closed(seen: Seq<Run>, frontier: Seq<Node>, data: DataView) -> bool {
    &&& among(seen, initial_run(data)) || waiting(frontier, initial_run(data))
    &&& forall|r: RunView, i: int, c: nat|
        #![trigger among(seen, r), can_step(r, data, i, c)]
        among(seen, r) && can_step(r, data, i, c) ==> among(seen, stepped(r, data, i, c))
            || waiting(frontier, stepped(r, data, i, c))
}

/// No seen state is better than `best`.
pub open spec fn topped(seen: Seq<Run>, best: RunView, objectives: Seq<Seq<char>>) -> bool {
    forall|j: int| 0 <= j < seen.len() ==> !better((#[trigger] seen[j])@, best, objectives)
}

/// What can be stepped from a state, and where to, hangs on its time and
/// account alone.
pub proof fn lemma_steps_respect_key(a: RunView, b: RunView, data: DataView, i: int, c: nat)
    requires
        same_key(a, b),
        can_step(a, data, i, c),
    ensures
        can_step(b, data, i, c),
        same_key(stepped(a, data, i, c), stepped(b, data, i, c)),
{
}

/// A state that waits in the frontier still waits when a node has left it,
/// unless it is the state of that node.
pub proof fn lemma_pop_keeps(held: Seq<Node>, x: int, r: RunView)
    requires
        0 <= x < held.len(),
        waiting(held, r),
    ensures
        waiting(held.update(x, held.last()).drop_last(), r) || same_key(held[x].run@, r),
{
    let rest = held.update(x, held.last()).drop_last();
    let j = choose|j: int| 0 <= j < held.len() && same_key((#[trigger] held[j]).run@, r);
    if j != x {
        if j == held.len() - 1 {
            assert(same_key(rest[x].run@, r));
        } else {
            assert(same_key(rest[j].run@, r));
        }
    }
}

/// A search that has lost no state loses none when a node whose state was
/// seen leaves the frontier.
pub proof fn lemma_closed_drop(seen: Seq<Run>, held: Seq<Node>, x: int, data: DataView)
    requires
        closed(seen, held, data),
        0 <= x < held.len(),
        among(seen, held[x].run@),
    ensures
        closed(seen, held.update(x, held.last()).drop_last(), data),
{
    let rest = held.update(x, held.last()).drop_last();
    let j = choose|j: int| 0 <= j < seen.len() && same_key((#[trigger] seen[j])@, held[x].run@);
    if waiting(held, initial_run(data)) {
        lemma_pop_keeps(held, x, initial_run(data));
        if same_key(held[x].run@, initial_run(data)) {
            assert(same_key(seen[j]@, initial_run(data)));
        }
    }
    assert forall|r: RunView, i: int, c: nat|
        #![trigger among(seen, r), can_step(r, data, i, c)]
        among(seen, r) && can_step(r, data, i, c) implies among(seen, stepped(r, data, i, c))
        || waiting(rest, stepped(r, data, i, c)) by {
        let next = stepped(r, data, i, c);
        if waiting(held, next) {
            lemma_pop_keeps(held, x, next);
            if same_key(held[x].run@, next) {
                assert(same_key(seen[j]@, next));
            }
        }
    }
}

/// A search that has lost no state loses none when a node leaves the
/// frontier, its state joins the seen ones, and every state that a step
/// reaches from it enters the frontier.
pub proof fn lemma_closed_grow(
    seen: Seq<Run>,
    held: Seq<Node>,
    x: int,
    grown: Seq<Node>,
    data: DataView,
)
    requires
        closed(seen, held, data),
        0 <= x < held.len(),
        forall|r: RunView| #[trigger]
            waiting(held.update(x, held.last()).drop_last(), r) ==> waiting(grown, r),
        forall|i: int, c: nat| #[trigger]
            can_step(held[x].run@, data, i, c) ==> waiting(
                grown,
                stepped(held[x].run@, data, i, c),
            ),
    ensures
        closed(seen.push(held[x].run), grown, data),
{
    let rest = held.update(x, held.last()).drop_last();
    let node = held[x].run;
    let more = seen.push(node);
    assert(same_key(more[seen.len() as int]@, node@));
    assert forall|r: RunView| among(seen, r) implies among(more, r) by {
        let j = choose|j: int| 0 <= j < seen.len() && same_key((#[trigger] seen[j])@, r);
        assert(same_key(more[j]@, r));
    }
    assert forall|r: RunView| waiting(held, r) implies among(more, r) || waiting(grown, r) by {
        lemma_pop_keeps(held, x, r);
        if same_key(node@, r) {
            assert(same_key(more[seen.len() as int]@, r));
        } else {
            assert(waiting(rest, r));
        }
    }
    assert forall|r: RunView, i: int, c: nat|
        #![trigger among(more, r), can_step(r, data, i, c)]
        among(more, r) && can_step(r, data, i, c) implies among(more, stepped(r, data, i, c))
        || waiting(grown, stepped(r, data, i, c)) by {
        let next = stepped(r, data, i, c);
        let j = choose|j: int| 0 <= j < more.len() && same_key((#[trigger] more[j])@, r);
        if j < seen.len() {
            assert(same_key(seen[j]@, r));
            assert(among(seen, r));
            assert(among(seen, next) || waiting(held, next));
        } else {
            assert(same_key(node@, r));
            lemma_steps_respect_key(r, node@, data, i, c);
            assert(waiting(grown, stepped(node@, data, i, c)));
            let k = choose|k: int|
                0 <= k < grown.len() && same_key(
                    (#[trigger] grown[k]).run@,
                    stepped(node@, data, i, c),
                );
            assert(same_key(grown[k].run@, next));
        }
    }
}

/// Where the search has lost no state and the frontier is empty, every state
/// that steps reach from the initial stocks was seen.
pub proof fn lemma_all_seen(seen: Seq<Run>, data: DataView, path: Seq<(int, nat)>)
    requires
        closed(seen, Seq::empty(), data),
        walkable(data, path),
    ensures
        among(seen, walked(data, path)),
    decreases path.len(),
{
    if path.len() > 0 {
        lemma_all_seen(seen, data, path.drop_last());
        let before = walked(data, path.drop_last());
        assert(among(seen, before) && can_step(before, data, path.last().0, path.last().1));
    }
}

/// A state of the search as plain values.
pub struct NodeView {
    pub run: RunView,
    pub tally: nat,
    pub rank: nat,
}

/// A node as plain values.
pub open spec fn node_view(node: Node) -> NodeView {
    NodeView { run: node.run@, tally: node.tally as nat, rank: node.rank as nat }
}

/// A frontier as plain values.
pub open spec fn nodes_view(list: Seq<Node>) -> Seq<NodeView> {
    Seq::new(list.len(), |x: int| node_view(list[x]))
}

/// A list of runs as plain values.
pub open spec fn runs_view(list: Seq<Run>) -> Seq<RunView> {
    Seq::new(list.len(), |x: int| list[x]@)
}

/// One state comes before another in the frontier: a lower tally, or the same
/// tally at a lower rank.
pub open spec fn ahead(a: NodeView, b: NodeView) -> bool {
    a.tally < b.tally || (a.tally == b.tally && a.rank < b.rank)
}

/// Position `x` holds the state that leaves the frontier next: no state comes
/// before it, and it is the first such.
pub open spec fn first_least(list: Seq<NodeView>, x: int) -> bool {
    &&& 0 <= x < list.len()
    &&& forall|y: int| 0 <= y < list.len() ==> !ahead(#[trigger] list[y], list[x])
    &&& forall|y: int| 0 <= y < x ==> ahead(list[x], #[trigger] list[y])
}

/// The position of the state that leaves the frontier next.
pub open spec fn next_out(list: Seq<NodeView>) -> int {
    choose|x: int| first_least(list, x)
}

/// One position at most holds the state that leaves the frontier next.
pub proof fn lemma_first_least_unique(list: Seq<NodeView>, x: int, y: int)
    requires
        first_least(list, x),
        first_least(list, y),
    ensures
        x == y,
{
    if x < y {
        assert(ahead(list[y], list[x]));
    }
    if y < x {
        assert(ahead(list[x], list[y]));
    }
}

/// A run of `seen` stands at the same time with the same account as `r`.
pub open spec fn met(seen: Seq<RunView>, r: RunView) -> bool {
    exists|j: int| 0 <= j < seen.len() && same_key(#[trigger] seen[j], r)
}

/// The state that holds `run`: its objective tally, and as rank its elapsed
/// time plus `offset`, as far as the machine can count.
pub open spec fn node_for(run: RunView, data: DataView, offset: nat) -> NodeView {
    NodeView {
        run,
        tally: tally(settled(run.tick), data.objectives),
        rank: if offset + run.time > u128::MAX {
            u128::MAX as nat
        } else {
            offset + run.time
        },
    }
}

/// The states that the steps from `run` lead to, the last step first.
pub open spec fn children(run: RunView, data: DataView, offset: nat) -> Seq<NodeView> {
    let steps = all_steps(run, data, data.processes.len() as int);
    Seq::new(
        steps.len(),
        |x: int|
            node_for(
                stepped(run, data, steps[steps.len() - 1 - x].0, steps[steps.len() - 1 - x].1),
                data,
                offset,
            ),
    )
}

/// The search as plain values: the frontier, the states seen, and the best
/// state seen.
pub struct SearchView {
    pub frontier: Seq<NodeView>,
    pub seen: Seq<RunView>,
    pub best: RunView,
}

/// The search before any state has left the frontier.
pub open spec fn search_start(data: DataView, offset: nat) -> SearchView {
    SearchView {
        frontier: seq![node_for(initial_run(data), data, offset)],
        seen: Seq::empty(),
        best: initial_run(data),
    }
}

/// The search after one more state has left the frontier, the last state of
/// the frontier taking its place. A state whose time and account were seen is
/// dropped. Any other joins the seen ones, becomes the best if it is better
/// than the best, and the states that its steps lead to enter the frontier.
/// An empty frontier leaves the search as it is.
pub open spec fn search_step(s: SearchView, data: DataView, offset: nat) -> SearchView {
    if s.frontier.len() == 0 {
        s
    } else {
        let x = next_out(s.frontier);
        let node = s.frontier[x];
        let rest = s.frontier.update(x, s.frontier.last()).drop_last();
        if met(s.seen, node.run) {
            SearchView { frontier: rest, seen: s.seen, best: s.best }
        } else {
            SearchView {
                frontier: rest + children(node.run, data, offset),
                seen: s.seen.push(node.run),
                best: if better(node.run, s.best, data.objectives) {
                    node.run
                } else {
                    s.best
                },
            }
        }
    }
}

/// The search after `n` states have left the frontier.
pub open spec fn search_walk(data: DataView, offset: nat, n: nat) -> SearchView
    decreases n,
{
    if n == 0 {
        search_start(data, offset)
    } else {
        search_step(search_walk(data, offset, (n - 1) as nat), data, offset)
    }
}

/// Every node holds the tally of its run, and as rank the elapsed time of
/// its run plus `offset`.
pub open spec fn ranked(list: Seq<Node>, data: DataView, offset: nat) -> bool {
    forall|y: int|
        0 <= y < list.len() ==> node_view(#[trigger] list[y]) == node_for(list[y].run@, data, offset)
}

/// Every node is sound.
pub open spec fn all_sound(list: Seq<Node>, data: DataView) -> bool {
    forall|y: int| 0 <= y < list.len() ==> sound(#[trigger] list[y], data)
}

/// Puts the states that the steps from `run` lead to behind the nodes of
/// `frontier`, the last step first.
pub fn enter_children(frontier: &mut Vec<Node>, run: &Run, data: &Data, offset: u128)
    ensures
        nodes_view(final(frontier)@) == nodes_view(old(frontier)@) + children(
            run@,
            data@,
            offset as nat,
        ),
        forall|r: RunView| #[trigger] waiting(old(frontier)@, r) ==> waiting(final(frontier)@, r),
        forall|i: int, c: nat| #[trigger]
            can_step(run@, data@, i, c) ==> waiting(final(frontier)@, stepped(run@, data@, i, c)),
        ranked(old(frontier)@, data@, offset as nat) ==> ranked(
            final(frontier)@,
            data@,
            offset as nat,
        ),
        follows(run@, data@) && reached(data@, run@) && all_sound(old(frontier)@, data@)
            ==> all_sound(final(frontier)@, data@),
{
    let ghost gap = offset as nat;
    let ghost first = frontier@;
    let mut steps = successors(run, data);
    let ghost all = steps@;
    let ghost kids = children(run@, data@, gap);
    proof {
        assert(kids.len() == all.len());
        assert(nodes_view(frontier@) =~= nodes_view(first) + kids.take(0));
        assert(all.take(all.len() as int) =~= all);
        if reached(data@, run@) {
            assert forall|y: int| 0 <= y < all.len() implies reached(
                data@,
                (#[trigger] all[y]).run@,
            ) by {
                lemma_reached_step(data@, run@, all[y].index as int, all[y].count as nat);
            }
        }
    }
    while steps.len() > 0
        invariant
            steps@ == all.take(steps@.len() as int),
            steps@.len() <= all.len(),
            gap == offset as nat,
            kids == children(run@, data@, gap),
            kids.len() == all.len(),
            steps_of(all, run@, data@),
            steps_view(all) == all_steps(run@, data@, data@.processes.len() as int),
            nodes_view(frontier@) == nodes_view(first) + kids.take(all.len() - steps@.len()),
            ranked(first, data@, gap) ==> ranked(frontier@, data@, gap),
            follows(run@, data@) && reached(data@, run@) && all_sound(first, data@) ==> all_sound(
                frontier@,
                data@,
            ),
            reached(data@, run@) ==> forall|y: int|
                0 <= y < all.len() ==> reached(data@, (#[trigger] all[y]).run@),
            forall|r: RunView| #[trigger] waiting(first, r) ==> waiting(frontier@, r),
            forall|y: int|
                steps@.len() <= y < all.len() ==> waiting(frontier@, (#[trigger] all[y]).run@),
        decreases steps@.len(),
    {
        let ghost before_push = frontier@;
        let ghost last = (steps@.len() - 1) as int;
        let step = steps.pop().unwrap();
        proof {
            assert(step == all[last]);
            assert(steps@ =~= all.take(steps@.len() as int));
        }
        let value = step.run.tally(&data.objectives);
        let time = step.run.time() as u128;
        let rank = if offset > u128::MAX - time {
            u128::MAX
        } else {
            offset + time
        };
        let ghost shown = nodes_view(frontier@);
        frontier.push(Node { run: step.run, tally: value, rank });
        proof {
            let k = all.len() - 1 - last;
            assert(steps_view(all)[last] == (all[last].index as int, all[last].count as nat));
            assert(all[last].run@ == stepped(
                run@,
                data@,
                all[last].index as int,
                all[last].count as nat,
            ));
            assert(kids[k] == node_for(all[last].run@, data@, gap));
            assert(nodes_view(frontier@) =~= shown.push(kids[k]));
            assert(kids.take(k + 1) =~= kids.take(k).push(kids[k]));
            assert(shown.push(kids[k]) =~= nodes_view(first) + kids.take(k + 1));
            assert forall|r: RunView| #[trigger] waiting(first, r) implies waiting(frontier@, r) by {
                assert(waiting(before_push, r));
                let j = choose|j: int|
                    0 <= j < before_push.len() && same_key((#[trigger] before_push[j]).run@, r);
                assert(same_key(frontier@[j].run@, r));
            }
            assert forall|y: int| steps@.len() <= y < all.len() implies waiting(
                frontier@,
                (#[trigger] all[y]).run@,
            ) by {
                if y == last {
                    assert(same_key(frontier@[before_push.len() as int].run@, all[y].run@));
                } else {
                    assert(waiting(before_push, all[y].run@));
                    let j = choose|j: int|
                        0 <= j < before_push.len() && same_key(
                            (#[trigger] before_push[j]).run@,
                            all[y].run@,
                        );
                    assert(same_key(frontier@[j].run@, all[y].run@));
                }
            }
            if ranked(first, data@, gap) {
                assert forall|y: int| 0 <= y < frontier@.len() implies node_view(
                    #[trigger] frontier@[y],
                ) == node_for(frontier@[y].run@, data@, gap) by {
                    if y < before_push.len() {
                        assert(frontier@[y] == before_push[y]);
                    }
                }
            }
            if follows(run@, data@) && reached(data@, run@) && all_sound(first, data@) {
                assert forall|y: int| 0 <= y < frontier@.len() implies sound(
                    #[trigger] frontier@[y],
                    data@,
                ) by {
                    if y < before_push.len() {
                        assert(frontier@[y] == before_push[y]);
                    } else {
                        assert(reached(data@, all[last].run@));
                    }
                }
            }
        }
    }
    proof {
        assert(kids.take(all.len() as int) =~= kids);
        assert forall|i: int, c: nat| #[trigger] can_step(run@, data@, i, c) implies waiting(
            frontier@,
            stepped(run@, data@, i, c),
        ) by {
            let y = choose|y: int|
                0 <= y < all.len() && (#[trigger] all[y]).index == i && all[y].count == c;
            assert(waiting(frontier@, all[y].run@));
        }
    }
}

/// What the frontier gives out next is what its plain values give out next.
pub proof fn lemma_next_out(held: Seq<Node>, x: int)
    requires
        least_at(held, x),
    ensures
        next_out(nodes_view(held)) == x,
        nodes_view(held.update(x, held.last()).drop_last()) == nodes_view(held).update(
            x,
            nodes_view(held).last(),
        ).drop_last(),
{
    let views = nodes_view(held);
    assert(first_least(views, x)) by {
        assert forall|y: int| 0 <= y < views.len() implies !ahead(#[trigger] views[y], views[x]) by {
            assert(!before(held[y], held[x]));
        }
        assert forall|y: int| 0 <= y < x implies ahead(views[x], #[trigger] views[y]) by {
            assert(before(held[x], held[y]));
        }
    }
    lemma_first_least_unique(views, x, next_out(views));
    assert(nodes_view(held.update(x, held.last()).drop_last()) =~= views.update(
        x,
        views.last(),
    ).drop_last());
}

/// A state is among the seen runs where it is met among their plain values.
pub proof fn lemma_met(seen: Seq<Run>, r: RunView)
    ensures
        met(runs_view(seen), r) == among(seen, r),
{
    let views = runs_view(seen);
    if among(seen, r) {
        let j = choose|j: int| 0 <= j < seen.len() && same_key((#[trigger] seen[j])@, r);
        assert(same_key(views[j], r));
    }
    if met(views, r) {
        let j = choose|j: int| 0 <= j < views.len() && same_key(#[trigger] views[j], r);
        assert(same_key(seen[j]@, r));
    }
}

/// Best-first search from the initial stocks of `data`. The budget is polled
/// before each state is taken from the frontier, and the search ends when a
/// poll finds it spent or when the frontier is empty. The frontier gives out
/// the state of lowest tally, and of several the one of lowest rank, the rank
/// being the elapsed time plus `offset`; a rank beyond what the machine can
/// count counts as the largest rank. A state whose account and time were seen
/// is dropped; any other is held against the best state seen and then
/// expanded. Returns the best state seen: that of the search after as many
/// states have left the frontier as polls found the budget unspent. Where the
/// search ends with the budget unspent, the frontier is empty and no state
/// that steps reach is better.
pub fn best_first(data: &Data, budget: &mut Budget, offset: u128) -> (best: Run)
    ensures
        follows(best@, data@),
        reached(data@, best@),
        tally(settled(best@.tick), data@.objectives) >= tally(data@.stocks, data@.objectives),
        final(budget).was_spent() || optimal(data@, best@),
        best@ == search_walk(
            data@,
            offset as nat,
            polls_used(old(budget), final(budget)),
        ).best,
        final(budget).was_spent() || search_walk(
            data@,
            offset as nat,
            polls_used(old(budget), final(budget)),
        ).frontier.len() == 0,
        final(budget).remaining() <= old(budget).remaining(),
        old(budget).was_spent() ==> final(budget).remaining() == old(budget).remaining(),
{
    let start = Run::start(data);
    proof {
        lemma_reached_start(data@);
    }
    let mut best = start.duplicate();
    let mut best_tally = start.tally(&data.objectives);
    proof {
        lemma_arrive_settled(opening(data@.stocks), 0);
        assert(settled(opening(data@.stocks)) =~= data@.stocks);
    }
    let mut frontier: Vec<Node> = Vec::new();
    frontier.push(Node { run: start, tally: best_tally, rank: offset });
    let mut seen: Vec<Run> = Vec::new();
    let ghost polls = budget.remaining();
    let ghost gap = offset as nat;
    proof {
        assert(same_key(frontier@[0].run@, initial_run(data@)));
        assert(nodes_view(frontier@) =~= search_start(data@, gap).frontier);
        assert(runs_view(seen@) =~= search_start(data@, gap).seen);
    }
    loop
        invariant_except_break
            (SearchView {
                frontier: nodes_view(frontier@),
                seen: runs_view(seen@),
                best: best@,
            }) == search_walk(data@, gap, (polls - budget.remaining()) as nat),
        invariant
            gap == offset as nat,
            polls == old(budget).remaining(),
            budget.remaining() <= polls,
            old(budget).was_spent() ==> budget.was_spent() && budget.remaining() == polls,
            ranked(frontier@, data@, gap),
            all_sound(frontier@, data@),
            follows(best@, data@),
            reached(data@, best@),
            best_tally == tally(settled(best@.tick), data@.objectives),
            best_tally >= tally(data@.stocks, data@.objectives),
            closed(seen@, frontier@, data@),
            topped(seen@, best@, data@.objectives),
        ensures
            budget.was_spent() || optimal(data@, best@),
            best@ == search_walk(data@, gap, polls_used(old(budget), &*budget)).best,
            budget.was_spent() || search_walk(
                data@,
                gap,
                polls_used(old(budget), &*budget),
            ).frontier.len() == 0,
            budget.remaining() <= polls,
            old(budget).was_spent() ==> budget.remaining() == polls,
        decreases budget.remaining(),
    {
        let ghost made = (polls - budget.remaining()) as nat;
        let ghost state = search_walk(data@, gap, made);
        if budget.spent() {
            break ;
        }
        let ghost held = frontier@;
        let ghost seen_before = seen@;
        let ghost best_before = best@;
        let node = match pop_least(&mut frontier) {
            None => {
                proof {
                    assert(frontier@ =~= Seq::<Node>::empty());
                    assert(search_walk(data@, gap, made + 1) == search_step(state, data@, gap));
                    assert forall|path: Seq<(int, nat)>| walkable(data@, path) implies !better(
                        #[trigger] walked(data@, path),
                        best@,
                        data@.objectives,
                    ) by {
                        lemma_all_seen(seen@, data@, path);
                        let j = choose|j: int|
                            0 <= j < seen@.len() && same_key(
                                (#[trigger] seen@[j])@,
                                walked(data@, path),
                            );
                        assert(!better(seen@[j]@, best@, data@.objectives));
                    }
                }
                break ;
            },
            Some(node) => node,
        };
        let ghost x = choose|x: int|
            least_at(held, x) && node == held[x] && frontier@ == held.update(
                x,
                held.last(),
            ).drop_last();
        let ghost rest = frontier@;
        proof {
            lemma_next_out(held, x);
            lemma_met(seen@, node.run@);
            assert(state.frontier[x].run == node.run@);
            assert(sound(held[x], data@));
            assert(ranked(rest, data@, gap) && all_sound(rest, data@)) by {
                assert forall|y: int| 0 <= y < rest.len() implies node_view(#[trigger] rest[y])
                    == node_for(rest[y].run@, data@, gap) && sound(rest[y], data@) by {
                    if y == x {
                        assert(rest[y] == held[held.len() - 1]);
                        assert(sound(held[held.len() - 1], data@));
                    } else {
                        assert(rest[y] == held[y]);
                        assert(sound(held[y], data@));
                    }
                }
            }
        }
        if !was_seen(&seen, &node.run) {
            if improves(node.tally, node.run.time(), best_tally, best.time()) {
                best = node.run.duplicate();
                best_tally = node.tally;
            }
            enter_children(&mut frontier, &node.run, data, offset);
            seen.push(node.run);
            proof {
                assert(runs_view(seen@) =~= state.seen.push(held[x].run@));
                lemma_closed_grow(seen_before, held, x, frontier@, data@);
                assert(seen@ =~= seen_before.push(held[x].run));
                assert forall|j: int| 0 <= j < seen@.len() implies !better(
                    (#[trigger] seen@[j])@,
                    best@,
                    data@.objectives,
                ) by {
                    if j < seen_before.len() {
                        assert(!better(seen_before[j]@, best_before, data@.objectives));
                    }
                }
            }
        } else {
            proof {
                lemma_closed_drop(seen@, held, x, data@);
            }
        }
    }
    best
}

} // verus!
