//! What the governor remembers between ticks: the recent loads, the power
//! source it last saw, and the settings it last wrote for each source.

use vstd::prelude::*;
use crate::policy::Targets;

verus! {

/// `w` after `x` is added to a window of `cap` samples: `x` goes at the
/// back, and the oldest sample leaves when there are more than `cap`.
pub open spec fn window_push<T>(w: Seq<T>, x: T, cap: nat) -> Seq<T> {
    let grown = w.push(x);
    if grown.len() > cap {
        grown.drop_first()
    } else {
        grown
    }
}

/// `w` after the samples `xs` are added in order.
pub open spec fn window_push_all<T>(w: Seq<T>, xs: Seq<T>, cap: nat) -> Seq<T>
    decreases xs.len(),
{
    if xs.len() == 0 {
        w
    } else {
        window_push(window_push_all(w, xs.drop_last(), cap), xs.last(), cap)
    }
}

/// The most recent samples, at most `capacity` of them, oldest first.
pub struct LoadWindow<T> {
    samples: Vec<T>,
    capacity: usize,
}

impl<T> LoadWindow<T> {
    pub closed spec fn contents(&self) -> Seq<T> {
        self.samples@
    }

    pub closed spec fn cap(&self) -> nat {
        self.capacity as nat
    }

    #[verifier::type_invariant]
    closed spec fn within_capacity(&self) -> bool {
        self.samples@.len() <= self.capacity
    }

    /// An empty window of `capacity` samples.
    pub fn new(capacity: usize) -> (r: Self)
        ensures
            r.contents() == Seq::<T>::empty(),
            r.cap() == capacity,
    {
        LoadWindow { samples: Vec::new(), capacity }
    }

    /// Adds a sample, dropping the oldest when the window overflows.
    pub fn add(&mut self, x: T)
        ensures
            final(self).contents() == window_push(old(self).contents(), x, old(self).cap()),
            final(self).cap() == old(self).cap(),
            final(self).contents().len() <= final(self).cap(),
    {
        proof {
            use_type_invariant(&*self);
        }
        let ghost before = self.samples@;
        let cap = self.capacity;
        let mut samples = Vec::new();
        std::mem::swap(&mut samples, &mut self.samples);
        samples.push(x);
        if samples.len() > cap {
            samples.remove(0);
            assert(samples@ =~= before.push(x).drop_first());
        }
        self.samples = samples;
    }

    /// The samples, oldest first.
    pub fn samples(&self) -> (r: &Vec<T>)
        ensures
            r@ == self.contents(),
    {
        &self.samples
    }

    /// The number of samples held.
    pub fn len(&self) -> (r: usize)
        ensures
            r == self.contents().len(),
            r <= self.cap(),
    {
        proof {
            use_type_invariant(self);
        }
        self.samples.len()
    }

    /// The capacity given at creation.
    pub fn capacity(&self) -> (r: usize)
        ensures
            r == self.cap(),
    {
        self.capacity
    }
}

/// A window that starts within its capacity holds, after any samples are
/// added, exactly the latest `cap` of everything it has held (all of them
/// while there are no more than `cap`).
pub proof fn lemma_window_keeps_latest<T>(w: Seq<T>, xs: Seq<T>, cap: nat)
    requires
        w.len() <= cap,
    ensures
        window_push_all(w, xs, cap) == (w + xs).skip(
            if (w + xs).len() > cap {
                (w + xs).len() - cap
            } else {
                0
            },
        ),
    decreases xs.len(),
{
    if xs.len() > 0 {
        let all = w + xs;
        let before = w + xs.drop_last();
        lemma_window_keeps_latest(w, xs.drop_last(), cap);
        assert(before =~= all.drop_last());
        let kept = window_push_all(w, xs.drop_last(), cap);
        let d = if before.len() > cap {
            before.len() - cap
        } else {
            0
        };
        assert(kept == before.skip(d));
        assert(kept.push(xs.last()) =~= all.skip(d));
        if all.len() > cap {
            assert(window_push(kept, xs.last(), cap) =~= all.skip(all.len() - cap));
        } else {
            assert(window_push(kept, xs.last(), cap) =~= all.skip(0));
        }
    } else {
        assert(w + xs =~= w);
        assert(w.skip(0) =~= w);
    }
}

/// A processor setting of the power plan.
#[derive(Clone, Copy, Debug, PartialEq, Eq)]
pub enum Setting {
    Boost,
    MaxState,
    Epp,
    Cooling,
}

/// A value to write to a setting.
#[derive(Clone, Copy, Debug, PartialEq, Eq)]
pub struct Write {
    pub setting: Setting,
    pub value: u32,
}

/// The values last written, successfully, for one power source.
#[derive(Clone, Copy, Debug, PartialEq, Eq)]
pub struct Applied {
    pub boost: Option<u32>,
    pub max: Option<u32>,
    pub epp: Option<u32>,
    pub cooling: Option<u32>,
}

pub open spec fn applied_value(a: Applied, s: Setting) -> Option<u32> {
    match s {
        Setting::Boost => a.boost,
        Setting::MaxState => a.max,
        Setting::Epp => a.epp,
        Setting::Cooling => a.cooling,
    }
}

pub open spec fn target_value(t: Targets, s: Setting) -> u32 {
    match s {
        Setting::Boost => t.turbo,
        Setting::MaxState => t.max,
        Setting::Epp => t.epp,
        Setting::Cooling => t.cooling,
    }
}

/// `a` with `v` recorded as the value of `s`.
pub open spec fn applied_with(a: Applied, s: Setting, v: u32) -> Applied {
    match s {
        Setting::Boost => Applied { boost: Some(v), ..a },
        Setting::MaxState => Applied { max: Some(v), ..a },
        Setting::Epp => Applied { epp: Some(v), ..a },
        Setting::Cooling => Applied { cooling: Some(v), ..a },
    }
}

/// A setting is written when its last value differs from the target, or
/// when the power source has just changed.
pub open spec fn needs_write(a: Applied, t: Targets, s: Setting, changed: bool) -> bool {
    applied_value(a, s) != Some(target_value(t, s)) || changed
}

pub open spec fn write_if(ws: Seq<Write>, a: Applied, t: Targets, s: Setting, changed: bool) -> Seq<
    Write,
> {
    if needs_write(a, t, s, changed) {
        ws.push(Write { setting: s, value: target_value(t, s) })
    } else {
        ws
    }
}

/// The writes to make, in the order boost, maximum state, preference,
/// cooling.
pub open spec fn pending_for(a: Applied, t: Targets, changed: bool) -> Seq<Write> {
    let w0 = Seq::<Write>::empty();
    let w1 = write_if(w0, a, t, Setting::Boost, changed);
    let w2 = write_if(w1, a, t, Setting::MaxState, changed);
    let w3 = write_if(w2, a, t, Setting::Epp, changed);
    write_if(w3, a, t, Setting::Cooling, changed)
}

/// `a` after each of `ws` is recorded, in order.
pub open spec fn applied_after(a: Applied, ws: Seq<Write>) -> Applied
    decreases ws.len(),
{
    if ws.len() == 0 {
        a
    } else {
        applied_with(applied_after(a, ws.drop_last()), ws.last().setting, ws.last().value)
    }
}

/// Whether noting the power source `is_ac` after `last` is a change.
pub open spec fn source_changed(last: Option<bool>, is_ac: bool) -> bool {
    last != Some(is_ac)
}

pub open spec fn nothing_applied() -> Applied {
    Applied { boost: None, max: None, epp: None, cooling: None }
}

/// The number of load samples the governor averages over.
pub const HISTORY_LEN: usize = 10;

/// The governor's memory between ticks.
pub struct GovernorState<T> {
    history: LoadWindow<T>,
    last_ac_status: Option<bool>,
    ac: Applied,
    dc: Applied,
}

impl<T> GovernorState<T> {
    pub closed spec fn loads(&self) -> Seq<T> {
        self.history.contents()
    }

    pub closed spec fn load_capacity(&self) -> nat {
        self.history.cap()
    }

    pub closed spec fn last_source(&self) -> Option<bool> {
        self.last_ac_status
    }

    /// What was last written for mains power (`is_ac`) or for battery.
    pub closed spec fn applied_for(&self, is_ac: bool) -> Applied {
        if is_ac {
            self.ac
        } else {
            self.dc
        }
    }

    /// No loads, no power source seen, nothing written.
    pub fn new() -> (r: Self)
        ensures
            r.loads() == Seq::<T>::empty(),
            r.load_capacity() == HISTORY_LEN,
            r.last_source() is None,
            r.applied_for(true) == nothing_applied(),
            r.applied_for(false) == nothing_applied(),
    {
        let none = Applied { boost: None, max: None, epp: None, cooling: None };
        GovernorState {
            history: LoadWindow::new(HISTORY_LEN),
            last_ac_status: None,
            ac: none,
            dc: none,
        }
    }

    /// Adds a load sample to the history.
    pub fn add_load(&mut self, load: T)
        ensures
            final(self).loads() == window_push(old(self).loads(), load, old(self).load_capacity()),
            final(self).loads().len() <= final(self).load_capacity(),
            final(self).load_capacity() == old(self).load_capacity(),
            final(self).last_source() == old(self).last_source(),
            final(self).applied_for(true) == old(self).applied_for(true),
            final(self).applied_for(false) == old(self).applied_for(false),
    {
        self.history.add(load);
    }

    /// The recent loads, oldest first.
    pub fn history(&self) -> (r: &Vec<T>)
        ensures
            r@ == self.loads(),
    {
        self.history.samples()
    }

    /// The power source last noted: `Some(true)` for mains power.
    pub fn last_power_source(&self) -> (r: Option<bool>)
        ensures
            r == self.last_source(),
    {
        self.last_ac_status
    }

    /// What was last written for a power source.
    pub fn applied(&self, is_ac: bool) -> (r: Applied)
        ensures
            r == self.applied_for(is_ac),
    {
        if is_ac {
            self.ac
        } else {
            self.dc
        }
    }

    /// Notes the current power source; tells whether it differs from the
    /// one noted last (the first one noted always does).
    pub fn note_power_source(&mut self, is_ac: bool) -> (changed: bool)
        ensures
            changed == source_changed(old(self).last_source(), is_ac),
            changed == match old(self).last_source() {
                Some(b) => b != is_ac,
                None => true,
            },
            final(self).last_source() == Some(is_ac),
            final(self).loads() == old(self).loads(),
            final(self).load_capacity() == old(self).load_capacity(),
            final(self).applied_for(true) == old(self).applied_for(true),
            final(self).applied_for(false) == old(self).applied_for(false),
    {
        let changed = match self.last_ac_status {
            Some(b) => b != is_ac,
            None => true,
        };
        self.last_ac_status = Some(is_ac);
        changed
    }

    /// The writes that bring the settings of a power source to `t`: those
    /// whose last value differs, or all four when the source has changed.
    pub fn pending_writes(&self, t: Targets, is_ac: bool, changed: bool) -> (r: Vec<Write>)
        ensures
            r@ == pending_for(self.applied_for(is_ac), t, changed),
            r@.contains(Write { setting: Setting::Boost, value: t.turbo }) <==> (self.applied_for(
                is_ac,
            ).boost != Some(t.turbo) || changed),
            r@.contains(Write { setting: Setting::MaxState, value: t.max }) <==> (self.applied_for(
                is_ac,
            ).max != Some(t.max) || changed),
            r@.contains(Write { setting: Setting::Epp, value: t.epp }) <==> (self.applied_for(
                is_ac,
            ).epp != Some(t.epp) || changed),
            r@.contains(Write { setting: Setting::Cooling, value: t.cooling }) <==> (
            self.applied_for(is_ac).cooling != Some(t.cooling) || changed),
            forall|i: int|
                0 <= i < r@.len() ==> {
                    let w = #[trigger] r@[i];
                    ||| w == Write { setting: Setting::Boost, value: t.turbo }
                    ||| w == Write { setting: Setting::MaxState, value: t.max }
                    ||| w == Write { setting: Setting::Epp, value: t.epp }
                    ||| w == Write { setting: Setting::Cooling, value: t.cooling }
                },
            forall|i: int, j: int|
                0 <= i < j < r@.len() ==> write_rank((#[trigger] r@[i]).setting) < write_rank(
                    (#[trigger] r@[j]).setting,
                ),
    {
        proof {
            lemma_pending_writes_exactly(self.applied_for(is_ac), t, changed);
        }
        let a = self.applied(is_ac);
        let mut ws: Vec<Write> = Vec::new();
        if differs(a.boost, t.turbo) || changed {
            ws.push(Write { setting: Setting::Boost, value: t.turbo });
        }
        if differs(a.max, t.max) || changed {
            ws.push(Write { setting: Setting::MaxState, value: t.max });
        }
        if differs(a.epp, t.epp) || changed {
            ws.push(Write { setting: Setting::Epp, value: t.epp });
        }
        if differs(a.cooling, t.cooling) || changed {
            ws.push(Write { setting: Setting::Cooling, value: t.cooling });
        }
        ws
    }

    /// Records that `w` was written for a power source.
    pub fn record_write(&mut self, is_ac: bool, w: Write)
        ensures
            final(self).applied_for(is_ac) == applied_with(
                old(self).applied_for(is_ac),
                w.setting,
                w.value,
            ),
            final(self).applied_for(!is_ac) == old(self).applied_for(!is_ac),
            final(self).last_source() == old(self).last_source(),
            final(self).loads() == old(self).loads(),
            final(self).load_capacity() == old(self).load_capacity(),
            final(self).applied_for(is_ac).boost == if w.setting == Setting::Boost {
                Some(w.value)
            } else {
                old(self).applied_for(is_ac).boost
            },
            final(self).applied_for(is_ac).max == if w.setting == Setting::MaxState {
                Some(w.value)
            } else {
                old(self).applied_for(is_ac).max
            },
            final(self).applied_for(is_ac).epp == if w.setting == Setting::Epp {
                Some(w.value)
            } else {
                old(self).applied_for(is_ac).epp
            },
            final(self).applied_for(is_ac).cooling == if w.setting == Setting::Cooling {
                Some(w.value)
            } else {
                old(self).applied_for(is_ac).cooling
            },
    {
        proof {
            lemma_recording_sets_only_its_setting(old(self).applied_for(is_ac), w.setting, w.value);
        }
        let a = if is_ac {
            self.ac
        } else {
            self.dc
        };
        let b = match w.setting {
            Setting::Boost => Applied { boost: Some(w.value), ..a },
            Setting::MaxState => Applied { max: Some(w.value), ..a },
            Setting::Epp => Applied { epp: Some(w.value), ..a },
            Setting::Cooling => Applied { cooling: Some(w.value), ..a },
        };
        if is_ac {
            self.ac = b;
        } else {
            self.dc = b;
        }
    }
}

/// `last != Some(target)`
fn differs(last: Option<u32>, target: u32) -> (r: bool)
    ensures
        r == (last != Some(target)),
{
    match last {
        Some(v) => v != target,
        None => true,
    }
}

/// Recording a value for a setting makes that setting's last value the
/// recorded one and leaves the three others as they were.
pub proof fn lemma_recording_sets_only_its_setting(a: Applied, s: Setting, v: u32)
    ensures
        applied_with(a, s, v).boost == if s == Setting::Boost {
            Some(v)
        } else {
            a.boost
        },
        applied_with(a, s, v).max == if s == Setting::MaxState {
            Some(v)
        } else {
            a.max
        },
        applied_with(a, s, v).epp == if s == Setting::Epp {
            Some(v)
        } else {
            a.epp
        },
        applied_with(a, s, v).cooling == if s == Setting::Cooling {
            Some(v)
        } else {
            a.cooling
        },
{
}

/// The place of a setting in the order the writes are made.
pub open spec fn write_rank(s: Setting) -> int {
    match s {
        Setting::Boost => 0,
        Setting::MaxState => 1,
        Setting::Epp => 2,
        Setting::Cooling => 3,
    }
}

/// Each setting is written, with its target, exactly when its last written
/// value is not that target or the power source has changed; nothing else
/// is written; the writes come in the order boost, maximum state,
/// preference, cooling.
pub proof fn lemma_pending_writes_exactly(a: Applied, t: Targets, changed: bool)
    ensures
        pending_for(a, t, changed).contains(Write { setting: Setting::Boost, value: t.turbo }) <==> (
        a.boost != Some(t.turbo) || changed),
        pending_for(a, t, changed).contains(Write { setting: Setting::MaxState, value: t.max }) <==> (
        a.max != Some(t.max) || changed),
        pending_for(a, t, changed).contains(Write { setting: Setting::Epp, value: t.epp }) <==> (
        a.epp != Some(t.epp) || changed),
        pending_for(a, t, changed).contains(Write { setting: Setting::Cooling, value: t.cooling })
            <==> (a.cooling != Some(t.cooling) || changed),
        forall|i: int|
            0 <= i < pending_for(a, t, changed).len() ==> {
                let w = #[trigger] pending_for(a, t, changed)[i];
                ||| w == Write { setting: Setting::Boost, value: t.turbo }
                ||| w == Write { setting: Setting::MaxState, value: t.max }
                ||| w == Write { setting: Setting::Epp, value: t.epp }
                ||| w == Write { setting: Setting::Cooling, value: t.cooling }
            },
        forall|i: int, j: int|
            0 <= i < j < pending_for(a, t, changed).len() ==> write_rank(
                (#[trigger] pending_for(a, t, changed)[i]).setting,
            ) < write_rank((#[trigger] pending_for(a, t, changed)[j]).setting),
{
    let wb = Write { setting: Setting::Boost, value: t.turbo };
    let wm = Write { setting: Setting::MaxState, value: t.max };
    let we = Write { setting: Setting::Epp, value: t.epp };
    let wc = Write { setting: Setting::Cooling, value: t.cooling };
    let nb = a.boost != Some(t.turbo) || changed;
    let nm = a.max != Some(t.max) || changed;
    let ne = a.epp != Some(t.epp) || changed;
    let nc = a.cooling != Some(t.cooling) || changed;
    let w0 = Seq::<Write>::empty();
    let w1 = if nb { w0.push(wb) } else { w0 };
    let w2 = if nm { w1.push(wm) } else { w1 };
    let w3 = if ne { w2.push(we) } else { w2 };
    let w4 = if nc { w3.push(wc) } else { w3 };
    assert(pending_for(a, t, changed) == w4);
    // every write carries its setting's target, and settings increase in rank
    assert forall|i: int| 0 <= i < w4.len() implies (#[trigger] w4[i] == wb ==> nb) && (w4[i] == wm
        ==> nm) && (w4[i] == we ==> ne) && (w4[i] == wc ==> nc) && (w4[i] == wb || w4[i] == wm
        || w4[i] == we || w4[i] == wc) by {}
    if nb {
        assert(w4[0] == wb);
    }
    if nm {
        assert(w4[w2.len() - 1] == wm);
    }
    if ne {
        assert(w4[w3.len() - 1] == we);
    }
    if nc {
        assert(w4[w4.len() - 1] == wc);
    }
}

/// After a change of power source every setting is written, in the order
/// boost, maximum state, preference, cooling, each with its target.
pub proof fn lemma_change_writes_everything(a: Applied, t: Targets)
    ensures
        pending_for(a, t, true) == seq![
            Write { setting: Setting::Boost, value: t.turbo },
            Write { setting: Setting::MaxState, value: t.max },
            Write { setting: Setting::Epp, value: t.epp },
            Write { setting: Setting::Cooling, value: t.cooling },
        ],
{
    assert(pending_for(a, t, true) =~= seq![
        Write { setting: Setting::Boost, value: t.turbo },
        Write { setting: Setting::MaxState, value: t.max },
        Write { setting: Setting::Epp, value: t.epp },
        Write { setting: Setting::Cooling, value: t.cooling },
    ]);
}

/// Once every pending write has succeeded and been recorded, the same
/// targets on the same power source call for no write.
pub proof fn lemma_recorded_writes_settle(a: Applied, t: Targets, changed: bool)
    ensures
        pending_for(applied_after(a, pending_for(a, t, changed)), t, false) == Seq::<Write>::empty(),
{
    let w0 = Seq::<Write>::empty();
    let w1 = write_if(w0, a, t, Setting::Boost, changed);
    let w2 = write_if(w1, a, t, Setting::MaxState, changed);
    let w3 = write_if(w2, a, t, Setting::Epp, changed);
    let w4 = write_if(w3, a, t, Setting::Cooling, changed);
    assert(applied_after(a, w0) == a);
    lemma_after_write_if(a, w0, t, Setting::Boost, changed);
    lemma_after_write_if(a, w1, t, Setting::MaxState, changed);
    lemma_after_write_if(a, w2, t, Setting::Epp, changed);
    lemma_after_write_if(a, w3, t, Setting::Cooling, changed);
    let b = applied_after(a, w4);
    assert(b.boost == Some(t.turbo));
    assert(b.max == Some(t.max));
    assert(b.epp == Some(t.epp));
    assert(b.cooling == Some(t.cooling));
    assert(pending_for(b, t, false) =~= Seq::<Write>::empty());
}

/// Recording the writes up to and including `s` leaves `s` at its target
/// or at its old value when it was not written, and other settings as
/// the earlier writes left them.
proof fn lemma_after_write_if(a: Applied, ws: Seq<Write>, t: Targets, s: Setting, changed: bool)
    ensures
        applied_value(applied_after(a, write_if(ws, a, t, s, changed)), s) == if needs_write(
            a,
            t,
            s,
            changed,
        ) {
            Some(target_value(t, s))
        } else {
            applied_value(applied_after(a, ws), s)
        },
        forall|o: Setting|
            o != s ==> applied_value(applied_after(a, write_if(ws, a, t, s, changed)), o)
                == applied_value(applied_after(a, ws), o),
{
    let w = write_if(ws, a, t, s, changed);
    if needs_write(a, t, s, changed) {
        assert(w.drop_last() =~= ws);
    }
}

/// A write that is pending and does not succeed stays pending, whatever
/// other settings are recorded meanwhile.
pub proof fn lemma_unrecorded_write_stays_pending(
    a: Applied,
    t: Targets,
    s: Setting,
    other: Setting,
    v: u32,
)
    requires
        needs_write(a, t, s, false),
        other != s,
    ensures
        needs_write(applied_with(a, other, v), t, s, false),
{
}

/// Noting the same power source twice in a row, the second time is no
/// change.
pub proof fn lemma_same_source_no_change(is_ac: bool)
    ensures
        !source_changed(Some(is_ac), is_ac),
        source_changed(None, is_ac),
{
}

} // verus!
