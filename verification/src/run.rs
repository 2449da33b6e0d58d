//! Runs: the copier and a file system taking turns.

use vstd::prelude::*;
use crate::machine::State;
use crate::safety::{inv, lemma_inv_init, lemma_inv_step};
use crate::protocol::EventView;
use crate::world::{faultless, responds, tree_wf, World};

verus! {

/// The state of a copier that has taken the events, in order.
pub open spec fn state_after(events: Seq<EventView>) -> State
    decreases events.len(),
{
    if events.len() == 0 {
        State::init()
    } else {
        state_after(events.drop_last()).next(events.last())
    }
}

/// Event `i` answers what the copier asked for after the events before it, and
/// leads from world `i` to the next.
pub open spec fn step_ok(worlds: Seq<World>, events: Seq<EventView>, i: int) -> bool {
    responds(worlds[i], state_after(events.take(i)).action(), events[i], worlds[i + 1])
}

/// A run: a copier that starts afresh in the first world, and a file system that
/// answers each of its actions in turn. The last world is where they stand.
pub open spec fn is_run(worlds: Seq<World>, events: Seq<EventView>) -> bool {
    &&& worlds.len() == events.len() + 1
    &&& forall|i: int| 0 <= i < events.len() ==> #[trigger] step_ok(worlds, events, i)
}

/// Every answer of the run is the one that a file system without faults gives.
pub open spec fn is_faultless(worlds: Seq<World>, events: Seq<EventView>) -> bool {
    forall|i: int|
        0 <= i < events.len() ==> faultless(
            worlds[i],
            state_after(events.take(i)).action(),
            #[trigger] events[i],
        )
}

/// A run without its last step is a run.
pub proof fn lemma_run_prefix(worlds: Seq<World>, events: Seq<EventView>)
    requires
        is_run(worlds, events),
        events.len() > 0,
    ensures
        is_run(worlds.drop_last(), events.drop_last()),
        is_faultless(worlds, events) ==> is_faultless(worlds.drop_last(), events.drop_last()),
        responds(
            worlds.drop_last().last(),
            state_after(events.drop_last()).action(),
            events.last(),
            worlds.last(),
        ),
        is_faultless(worlds, events) ==> faultless(
            worlds.drop_last().last(),
            state_after(events.drop_last()).action(),
            events.last(),
        ),
{
    let shorter = events.drop_last();
    let before = worlds.drop_last();
    assert forall|i: int| 0 <= i < shorter.len() implies #[trigger] step_ok(before, shorter, i) by {
        assert(step_ok(worlds, events, i));
        assert(shorter.take(i) =~= events.take(i));
    }
    if is_faultless(worlds, events) {
        assert forall|i: int| 0 <= i < shorter.len() implies faultless(
            before[i],
            state_after(shorter.take(i)).action(),
            #[trigger] shorter[i],
        ) by {
            assert(shorter.take(i) =~= events.take(i));
            assert(shorter[i] == events[i]);
        }
        assert(events.take(events.len() - 1) =~= shorter);
        assert(events[events.len() - 1] == events.last());
    }
    assert(step_ok(worlds, events, events.len() - 1));
    assert(events.take(events.len() - 1) =~= shorter);
}

/// The invariant holds wherever a run stands, and the source is as it was.
pub proof fn lemma_run_inv(worlds: Seq<World>, events: Seq<EventView>)
    requires
        is_run(worlds, events),
        tree_wf(worlds[0].source),
        tree_wf(worlds[0].dest),
    ensures
        inv(state_after(events), worlds.last(), worlds[0].dest),
        worlds.last().source == worlds[0].source,
    decreases events.len(),
{
    if events.len() == 0 {
        lemma_inv_init(worlds[0]);
    } else {
        lemma_run_prefix(worlds, events);
        lemma_run_inv(worlds.drop_last(), events.drop_last());
        lemma_inv_step(
            state_after(events.drop_last()),
            worlds.drop_last().last(),
            events.last(),
            worlds.last(),
            worlds[0].dest,
        );
    }
}

} // verus!
