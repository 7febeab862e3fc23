//! One tick of the governor: from the load and the power source to the
//! settings to write.

use vstd::prelude::*;
use crate::policy::{Level, Policy, Targets, targets_for};
use crate::state::{
    GovernorState, Write, applied_after, lemma_recorded_writes_settle, pending_for,
    source_changed,
};

verus! {

/// What a tick decides: the settings the load calls for, whether the power
/// source changed, and the writes to make, in order.
pub struct Tick {
    pub targets: Targets,
    pub changed: bool,
    pub writes: Vec<Write>,
}

/// Decides a tick at the average load `load` on the power source `is_ac`:
/// notes the source, chooses the settings, and lists the writes.  Each
/// write that succeeds is then recorded with `record_write`.
pub fn plan_tick<T>(state: &mut GovernorState<T>, policy: &Policy, load: Level, is_ac: bool) -> (r:
    Tick)
    ensures
        r.targets == targets_for(policy@, load, is_ac),
        r.changed == source_changed(old(state).last_source(), is_ac),
        r.writes@ == pending_for(old(state).applied_for(is_ac), r.targets, r.changed),
        final(state).last_source() == Some(is_ac),
        final(state).loads() == old(state).loads(),
        final(state).load_capacity() == old(state).load_capacity(),
        final(state).applied_for(true) == old(state).applied_for(true),
        final(state).applied_for(false) == old(state).applied_for(false),
{
    let changed = state.note_power_source(is_ac);
    let targets = policy.choose_targets(load, is_ac);
    let writes = state.pending_writes(targets, is_ac, changed);
    Tick { targets, changed, writes }
}

/// With the load and the power source unchanged, a tick after one whose
/// writes all succeeded and were recorded asks for no write.
pub proof fn lemma_steady_load_settles(
    p: crate::policy::PolicyModel,
    load: Level,
    is_ac: bool,
    last: Option<bool>,
    a: crate::state::Applied,
)
    ensures
        ({
            let t = targets_for(p, load, is_ac);
            let first = pending_for(a, t, source_changed(last, is_ac));
            pending_for(applied_after(a, first), targets_for(p, load, is_ac), source_changed(Some(is_ac), is_ac))
                == Seq::<Write>::empty()
        }),
{
    let t = targets_for(p, load, is_ac);
    lemma_recorded_writes_settle(a, t, source_changed(last, is_ac));
}

} // verus!
