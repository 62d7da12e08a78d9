//! The dispatcher: every group goes to every processor, group after group.

use vstd::prelude::*;
use crate::buffered_logs::{resequence, views, GroupedHttpLogs};
use crate::processors::{outcome_view, Outcome, ProcessError, Processor};
use crate::reader::LogResult;
use crate::reorder::{Group, Reorder};
use crate::report::PieceView;

verus! {

/// The models of the outcomes of one dispatch, one by one.
pub open spec fn outcome_views(outcomes: Seq<Outcome>) -> Seq<
    Result<Seq<PieceView>, ProcessError>,
> {
    outcomes.map_values(|o: Outcome| outcome_view(o))
}

/// Whether every processor of `from` may answer `group` with its outcome
/// among `outcomes` and go on as its successor in `to`.
pub open spec fn dispatched<P: Processor>(
    from: Seq<P>,
    group: Group,
    to: Seq<P>,
    outcomes: Seq<Result<Seq<PieceView>, ProcessError>>,
) -> bool {
    &&& to.len() == from.len()
    &&& outcomes.len() == from.len()
    &&& forall|i: int|
        0 <= i < from.len() ==> (#[trigger] from[i]).handles(group, &to[i], outcomes[i])
}

/// Whether all of `processors` are ready for a group.
pub open spec fn all_ready<P: Processor>(processors: Seq<P>) -> bool {
    forall|i: int| 0 <= i < processors.len() ==> (#[trigger] processors[i]).ready()
}

/// Hands one group to every processor, in their order. A processor that
/// fails has its error recorded, and the others are not held up by it.
pub fn dispatch<P: Processor>(processors: &mut Vec<P>, log_group: &GroupedHttpLogs) -> (outcomes:
    Vec<Outcome>)
    requires
        all_ready(old(processors)@),
    ensures
        all_ready(final(processors)@),
        dispatched(old(processors)@, log_group@, final(processors)@, outcome_views(outcomes@)),
{
    let mut outcomes: Vec<Outcome> = Vec::new();
    let count = processors.len();
    let mut i: usize = 0;
    while i < count
        invariant
            i <= count,
            count == processors.len(),
            count == old(processors).len(),
            outcomes.len() == i,
            all_ready(processors@),
            forall|k: int| i <= k < count ==> processors@[k] == old(processors)@[k],
            forall|k: int|
                0 <= k < i ==> (#[trigger] old(processors)@[k]).handles(
                    log_group@,
                    &processors@[k],
                    outcome_view(outcomes@[k]),
                ),
        decreases count - i,
    {
        let ghost before = processors@;
        let outcome = processors[i].process(log_group);
        proof {
            assert forall|k: int| 0 <= k < processors.len() implies (
            #[trigger] processors@[k]).ready() by {
                if k != i {
                    assert(processors@[k] == before[k]);
                }
            }
        }
        outcomes.push(outcome);
        i += 1;
    }
    proof {
        let seen = outcome_views(outcomes@);
        assert forall|k: int| 0 <= k < count implies (#[trigger] old(processors)@[k]).handles(
            log_group@,
            &processors@[k],
            seen[k],
        ) by {
            assert(seen[k] == outcome_view(outcomes@[k]));
        }
    }
    outcomes
}

/// The models of the outcomes of all dispatches, one by one.
pub open spec fn all_outcome_views(outcomes: Seq<Vec<Outcome>>) -> Seq<
    Seq<Result<Seq<PieceView>, ProcessError>>,
> {
    outcomes.map_values(|o: Vec<Outcome>| outcome_views(o@))
}

/// Whether `history` tells how the processors went through `groups`: from
/// each of its states to the next by the dispatch of one group, with the
/// outcomes given. A group is dispatched in the state that the group
/// before it has left.
pub open spec fn relayed<P: Processor>(
    history: Seq<Seq<P>>,
    groups: Seq<Group>,
    outcomes: Seq<Seq<Result<Seq<PieceView>, ProcessError>>>,
) -> bool {
    &&& history.len() == groups.len() + 1
    &&& outcomes.len() == groups.len()
    &&& forall|k: int|
        0 <= k < groups.len() ==> dispatched(
            #[trigger] history[k],
            groups[k],
            history[k + 1],
            outcomes[k],
        )
}

/// Processes a whole source that is at hand: resequences it with a window
/// of `seconds`, and dispatches the groups in the order in which they
/// come out. Returns the outcomes, group by group and processor by
/// processor.
pub fn process_logs<P: Processor>(
    source: Vec<LogResult>,
    seconds: usize,
    processors: &mut Vec<P>,
) -> (outcomes: Vec<Vec<Outcome>>)
    requires
        all_ready(old(processors)@),
    ensures
        all_ready(final(processors)@),
        exists|history: Seq<Seq<P>>|
            history[0] == old(processors)@ && history.last() == final(processors)@
                && #[trigger] relayed(
                history,
                Reorder::start(seconds).run(source@),
                all_outcome_views(outcomes@),
            ),
{
    let groups = resequence(source, seconds);
    let mut outcomes: Vec<Vec<Outcome>> = Vec::new();
    let ghost mut history: Seq<Seq<P>> = seq![processors@];
    let mut k: usize = 0;
    while k < groups.len()
        invariant
            k <= groups.len(),
            all_ready(processors@),
            history[0] == old(processors)@,
            history.last() == processors@,
            relayed(history, views(groups@).take(k as int), all_outcome_views(outcomes@)),
        decreases groups.len() - k,
    {
        let ghost told = history;
        let ghost seen = all_outcome_views(outcomes@);
        let answers = dispatch(processors, &groups[k]);
        proof {
            history = told.push(processors@);
            let now = views(groups@).take(k + 1);
            let heard = all_outcome_views(outcomes@.push(answers));
            assert(heard =~= seen.push(outcome_views(answers@)));
            assert forall|j: int| 0 <= j < now.len() implies dispatched(
                #[trigger] history[j],
                now[j],
                history[j + 1],
                heard[j],
            ) by {
                if j < k {
                    assert(history[j] == told[j]);
                    assert(history[j + 1] == told[j + 1]);
                    assert(now[j] == views(groups@).take(k as int)[j]);
                    assert(dispatched(told[j], now[j], told[j + 1], seen[j]));
                } else {
                    assert(now[j] == groups@[k as int]@);
                    assert(history[j] == told.last());
                }
            }
        }
        outcomes.push(answers);
        k += 1;
    }
    proof {
        assert(views(groups@).take(k as int) =~= views(groups@));
    }
    outcomes
}

} // verus!
