//! The policy: which processor settings a load calls for.
//!
//! Loads and thresholds are compared the way the governor compares the
//! real numbers they stand for; a `Level` holds a position in that order,
//! or none for a value that compares with nothing.

use vstd::prelude::*;

verus! {

/// A load, or a load threshold, by its place in the order of loads.
#[derive(Clone, Copy, Debug)]
pub enum Level {
    /// A value at position `k`: a lower `k` is a lower value.
    At(u32),
    /// A value that is neither below, equal to nor above any value.
    Unordered,
}

/// `a <= b`
pub open spec fn at_most(a: Level, b: Level) -> bool {
    match (a, b) {
        (Level::At(x), Level::At(y)) => x <= y,
        _ => false,
    }
}

/// `a >= b`
pub open spec fn at_least(a: Level, b: Level) -> bool {
    match (a, b) {
        (Level::At(x), Level::At(y)) => x >= y,
        _ => false,
    }
}

/// `a <= b`
pub fn level_at_most(a: Level, b: Level) -> (r: bool)
    ensures
        r == at_most(a, b),
{
    match (a, b) {
        (Level::At(x), Level::At(y)) => x <= y,
        _ => false,
    }
}

/// `a >= b`
pub fn level_at_least(a: Level, b: Level) -> (r: bool)
    ensures
        r == at_least(a, b),
{
    match (a, b) {
        (Level::At(x), Level::At(y)) => x >= y,
        _ => false,
    }
}

/// The sign bit of a 32-bit IEEE-754 pattern: 1 for negative.
pub open spec fn sign_of(bits: u32) -> int {
    bits as int / 0x8000_0000
}

/// The pattern without its sign: exponent and fraction, which order the
/// magnitudes of the numbers (infinity included) as integers.
pub open spec fn magnitude_of(bits: u32) -> int {
    bits as int % 0x8000_0000
}

/// The pattern of a NaN: all exponent bits set and a fraction.
pub open spec fn is_nan_bits(bits: u32) -> bool {
    magnitude_of(bits) > 0x7f80_0000
}

/// `a <= b` for the numbers with IEEE-754 single-precision patterns `a`
/// and `b`: false when either is a NaN; the two zeros are equal; a
/// negative number is below a positive one; among positives the greater
/// magnitude is greater, among negatives the lesser.
pub open spec fn float_le(a: u32, b: u32) -> bool {
    if is_nan_bits(a) || is_nan_bits(b) {
        false
    } else if magnitude_of(a) == 0 && magnitude_of(b) == 0 {
        true
    } else if sign_of(a) == 0 && sign_of(b) == 0 {
        magnitude_of(a) <= magnitude_of(b)
    } else if sign_of(a) == 1 && sign_of(b) == 1 {
        magnitude_of(a) >= magnitude_of(b)
    } else {
        sign_of(a) == 1
    }
}

/// The level of the number with the IEEE-754 single-precision pattern
/// `bits` (what `f32::to_bits` gives).
pub open spec fn level_of_float(bits: u32) -> Level {
    if is_nan_bits(bits) {
        Level::Unordered
    } else if magnitude_of(bits) == 0 {
        Level::At(0x8000_0000)
    } else if sign_of(bits) == 0 {
        Level::At((0x8000_0000 + magnitude_of(bits)) as u32)
    } else {
        Level::At((0x7fff_ffff - magnitude_of(bits)) as u32)
    }
}

/// Places a single-precision number, given by its bit pattern, in the
/// order of loads.
pub fn level_of_bits(bits: u32) -> (r: Level)
    ensures
        r == level_of_float(bits),
{
    let magnitude = bits % 0x8000_0000;
    if magnitude > 0x7f80_0000 {
        Level::Unordered
    } else if magnitude == 0 {
        Level::At(0x8000_0000)
    } else if bits / 0x8000_0000 == 0 {
        Level::At(0x8000_0000 + magnitude)
    } else {
        Level::At(0x7fff_ffff - magnitude)
    }
}

/// Levels compare as the numbers do: `<=` and `>=` of two patterns hold
/// exactly when they hold of the numbers, so neither holds with a NaN.
pub proof fn lemma_levels_order_floats(a: u32, b: u32)
    ensures
        at_most(level_of_float(a), level_of_float(b)) == float_le(a, b),
        at_least(level_of_float(a), level_of_float(b)) == float_le(b, a),
{
}

/// One row of a load table: loads up to `threshold` call for `value`.
#[derive(Clone, Copy, Debug)]
pub struct Step {
    pub threshold: Level,
    pub value: u32,
}

/// The row `s` covers the load.
pub open spec fn fits(s: Step, load: Level) -> bool {
    at_most(load, s.threshold)
}

/// `i` is the first row of `t` that covers the load.
pub open spec fn is_first_fit(t: Seq<Step>, load: Level, i: int) -> bool {
    &&& 0 <= i < t.len()
    &&& fits(t[i], load)
    &&& forall|j: int| 0 <= j < i ==> !fits(#[trigger] t[j], load)
}

/// The value of the first row of `t` that covers the load, if one does.
pub open spec fn first_fit_value(t: Seq<Step>, load: Level) -> Option<u32> {
    if exists|i: int| is_first_fit(t, load, i) {
        Some(t[choose|i: int| is_first_fit(t, load, i)].value)
    } else {
        None
    }
}

/// `i` is the row of `t` with the least threshold that covers the load,
/// the first such row where several have that threshold.
pub open spec fn is_best_fit(t: Seq<Step>, load: Level, i: int) -> bool {
    &&& 0 <= i < t.len()
    &&& fits(t[i], load)
    &&& forall|j: int|
        0 <= j < t.len() && fits(#[trigger] t[j], load) ==> at_most(t[i].threshold, t[j].threshold)
            && (j < i ==> t[j].threshold != t[i].threshold)
}

/// The value of the row of `t` with the least threshold that covers the
/// load (the first in `t` among rows with that threshold), if one does.
pub open spec fn best_fit_value(t: Seq<Step>, load: Level) -> Option<u32> {
    if exists|i: int| is_best_fit(t, load, i) {
        Some(t[choose|i: int| is_best_fit(t, load, i)].value)
    } else {
        None
    }
}

/// Every pair of rows of `t` is in order of threshold.
pub open spec fn sorted(t: Seq<Step>) -> bool {
    forall|a: int, b: int|
        0 <= a < b < t.len() ==> at_most(#[trigger] t[a].threshold, #[trigger] t[b].threshold)
}

/// A table can be put in order: it has fewer than two rows, or every
/// threshold has a place in the order.
pub open spec fn sortable(t: Seq<Step>) -> bool {
    t.len() >= 2 ==> forall|i: int| 0 <= i < t.len() ==> (#[trigger] t[i].threshold) is At
}

/// `r` is `s` rearranged: row `a` of `r` is row `p[a]` of `s`, row `j` of
/// `s` is row `q[j]` of `r`, and rows with equal thresholds keep their
/// order.
pub open spec fn stable_arrangement(r: Seq<Step>, s: Seq<Step>, p: Seq<int>, q: Seq<int>) -> bool {
    &&& r.len() == s.len()
    &&& p.len() == r.len()
    &&& q.len() == s.len()
    &&& forall|a: int| 0 <= a < r.len() ==> 0 <= #[trigger] p[a] < s.len() && r[a] == s[p[a]]
    &&& forall|j: int| 0 <= j < s.len() ==> 0 <= #[trigger] q[j] < r.len() && p[q[j]] == j
    &&& forall|a: int, b: int|
        0 <= a < b < r.len() && (#[trigger] r[a]).threshold == (#[trigger] r[b]).threshold ==> p[a]
            < p[b]
}

proof fn lemma_first_fit_is_best(r: Seq<Step>, s: Seq<Step>, p: Seq<int>, q: Seq<int>, load: Level)
    requires
        stable_arrangement(r, s, p, q),
        sorted(r),
    ensures
        first_fit_value(r, load) == best_fit_value(s, load),
{
    if exists|i: int| is_first_fit(r, load, i) {
        let i = choose|i: int| is_first_fit(r, load, i);
        let b = p[i];
        assert(s[b] == r[i]);
        assert forall|j: int| 0 <= j < s.len() && fits(#[trigger] s[j], load) implies at_most(
            s[b].threshold,
            s[j].threshold,
        ) && (j < b ==> s[j].threshold != s[b].threshold) by {
            let a = q[j];
            assert(r[a] == s[j]);
            if a < i {
                assert(!fits(r[a], load));
            }
            if a > i {
                assert(at_most(r[i].threshold, r[a].threshold));
                if s[j].threshold == s[b].threshold {
                    assert(p[i] < p[a]);
                }
            }
        }
        assert(is_best_fit(s, load, b));
        assert forall|c: int| is_best_fit(s, load, c) implies c == b by {
            assert(at_most(s[b].threshold, s[c].threshold));
            assert(at_most(s[c].threshold, s[b].threshold));
            assert(s[c].threshold == s[b].threshold);
        }
    } else {
        assert forall|c: int| !is_best_fit(s, load, c) by {
            if 0 <= c < s.len() && fits(s[c], load) {
                let a = q[c];
                assert(r[a] == s[c]);
                lemma_some_first_fit(r, load, a);
            }
        }
    }
}

/// Where a row covers the load, some row is the first to.
proof fn lemma_some_first_fit(t: Seq<Step>, load: Level, j: int)
    requires
        0 <= j < t.len(),
        fits(t[j], load),
    ensures
        exists|i: int| is_first_fit(t, load, i),
    decreases j,
{
    if forall|k: int| 0 <= k < j ==> !fits(#[trigger] t[k], load) {
        assert(is_first_fit(t, load, j));
    } else {
        let k = choose|k: int| 0 <= k < j && fits(#[trigger] t[k], load);
        lemma_some_first_fit(t, load, k);
    }
}

/// Puts a table in order of threshold, keeping the file order of rows with
/// equal thresholds (a stable sort).
pub fn sort_by_threshold(steps: &Vec<Step>) -> (r: Vec<Step>)
    requires
        sortable(steps@),
    ensures
        sorted(r@),
        exists|p: Seq<int>, q: Seq<int>| stable_arrangement(r@, steps@, p, q),
        forall|load: Level| first_fit_value(r@, load) == best_fit_value(steps@, load),
{
    let n = steps.len();
    let mut out: Vec<Step> = Vec::new();
    let ghost mut p: Seq<int> = Seq::empty();
    let ghost mut q: Seq<int> = Seq::empty();
    let mut i: usize = 0;
    while i < n
        invariant
            n == steps@.len(),
            sortable(steps@),
            i <= n,
            out@.len() == i,
            p.len() == i,
            q.len() == i,
            sorted(out@),
            forall|a: int| 0 <= a < i ==> 0 <= #[trigger] p[a] < i && out@[a] == steps@[p[a]],
            forall|j: int| 0 <= j < i ==> 0 <= #[trigger] q[j] < i && p[q[j]] == j,
            forall|a: int, b: int|
                0 <= a < b < i && (#[trigger] out@[a]).threshold == (#[trigger] out@[b]).threshold
                    ==> p[a] < p[b],
        decreases n - i,
    {
        let x = steps[i];
        let mut pos: usize = 0;
        while pos < out.len() && level_at_most(out[pos].threshold, x.threshold)
            invariant
                out@.len() == i,
                pos <= i,
                forall|a: int| 0 <= a < pos ==> at_most(#[trigger] out@[a].threshold, x.threshold),
            decreases i - pos,
        {
            pos = pos + 1;
        }
        proof {
            if n >= 2 {
                assert(steps@[i as int].threshold is At);
                assert forall|a: int| 0 <= a < i implies (#[trigger] out@[a]).threshold is At by {
                    assert(steps@[p[a]].threshold is At);
                }
            }
            if pos < i {
                // every later row has a threshold above x's
                assert forall|a: int| pos <= a < i implies !at_most(
                    #[trigger] out@[a].threshold,
                    x.threshold,
                ) by {
                    assert(!at_most(out@[pos as int].threshold, x.threshold));
                    if a > pos {
                        assert(at_most(out@[pos as int].threshold, out@[a].threshold));
                    }
                }
            }
        }
        let ghost old_out = out@;
        let ghost old_p = p;
        let ghost old_q = q;
        out.insert(pos, x);
        proof {
            p = old_p.insert(pos as int, i as int);
            q = Seq::new(
                i as nat,
                |j: int|
                    if old_q[j] >= pos {
                        old_q[j] + 1
                    } else {
                        old_q[j]
                    },
            ).push(pos as int);
            assert forall|a: int, b: int| 0 <= a < b < i + 1 implies at_most(
                #[trigger] out@[a].threshold,
                #[trigger] out@[b].threshold,
            ) by {
                if b < pos {
                    assert(out@[a] == old_out[a] && out@[b] == old_out[b]);
                } else if b == pos {
                    assert(out@[a] == old_out[a]);
                } else if a > pos {
                    assert(out@[a] == old_out[a - 1] && out@[b] == old_out[b - 1]);
                } else if a == pos {
                    assert(out@[b] == old_out[b - 1]);
                    assert(!at_most(old_out[b - 1].threshold, x.threshold));
                } else {
                    assert(out@[a] == old_out[a] && out@[b] == old_out[b - 1]);
                }
            }
            assert forall|a: int| 0 <= a < i + 1 implies 0 <= #[trigger] p[a] < i + 1 && out@[a]
                == steps@[p[a]] by {
                if a < pos {
                    assert(out@[a] == old_out[a]);
                } else if a > pos {
                    assert(out@[a] == old_out[a - 1]);
                }
            }
            assert forall|j: int| 0 <= j < i + 1 implies 0 <= #[trigger] q[j] < i + 1 && p[q[j]]
                == j by {
                if j < i {
                    assert(0 <= old_q[j] < i);
                    assert(old_p[old_q[j]] == j);
                }
            }
            assert forall|a: int, b: int|
                0 <= a < b < i + 1 && (#[trigger] out@[a]).threshold
                    == (#[trigger] out@[b]).threshold implies p[a] < p[b] by {
                if b < pos {
                    assert(out@[a] == old_out[a] && out@[b] == old_out[b]);
                } else if b == pos {
                    assert(out@[a] == old_out[a]);
                } else if a > pos {
                    assert(out@[a] == old_out[a - 1] && out@[b] == old_out[b - 1]);
                } else if a == pos {
                    assert(out@[b] == old_out[b - 1]);
                    assert(!at_most(old_out[b - 1].threshold, x.threshold));
                    assert(x.threshold is At);
                } else {
                    assert(out@[a] == old_out[a] && out@[b] == old_out[b - 1]);
                }
            }
        }
        i = i + 1;
    }
    proof {
        assert(stable_arrangement(out@, steps@, p, q));
        assert forall|load: Level| first_fit_value(out@, load) == best_fit_value(steps@, load) by {
            lemma_first_fit_is_best(out@, steps@, p, q, load);
        }
    }
    out
}

/// Whether a table can be put in order of threshold.
pub fn is_sortable(steps: &Vec<Step>) -> (r: bool)
    ensures
        r == sortable(steps@),
{
    if steps.len() < 2 {
        return true;
    }
    let mut i: usize = 0;
    while i < steps.len()
        invariant
            steps@.len() >= 2,
            i <= steps@.len(),
            forall|j: int| 0 <= j < i ==> (#[trigger] steps@[j].threshold) is At,
        decreases steps@.len() - i,
    {
        if let Level::Unordered = steps[i].threshold {
            return false;
        }
        i = i + 1;
    }
    true
}

/// The value of the first row of `table` that covers the load, if any.
pub fn first_fit(table: &Vec<Step>, load: Level) -> (r: Option<u32>)
    ensures
        r == first_fit_value(table@, load),
{
    let mut i: usize = 0;
    while i < table.len()
        invariant
            i <= table@.len(),
            forall|j: int| 0 <= j < i ==> !fits(#[trigger] table@[j], load),
        decreases table@.len() - i,
    {
        if level_at_most(load, table[i].threshold) {
            assert(is_first_fit(table@, load, i as int));
            assert forall|k: int| is_first_fit(table@, load, k) implies k == i by {
                if k < i {
                    assert(!fits(table@[k], load));
                }
                if k > i {
                    assert(!fits(table@[i as int], load));
                }
            }
            return Some(table[i].value);
        }
        i = i + 1;
    }
    None
}

/// The processor settings a load calls for.
#[derive(Clone, Copy, Debug, PartialEq, Eq)]
pub struct Targets {
    /// Maximum processor state, in percent.
    pub max: u32,
    /// Performance boost mode.
    pub turbo: u32,
    /// Energy performance preference.
    pub epp: u32,
    /// System cooling policy: 0 passive, 1 active.
    pub cooling: u32,
}

/// The load tables, each in order of threshold, and the single settings.
pub struct Policy {
    ac_max: Vec<Step>,
    ac_turbo: Vec<Step>,
    ac_epp: Vec<Step>,
    ac_cooling: Level,
    dc_max_cap: u32,
    dc_max: Vec<Step>,
    dc_epp: Vec<Step>,
    dc_cooling: Level,
}

pub struct PolicyModel {
    pub ac_max: Seq<Step>,
    pub ac_turbo: Seq<Step>,
    pub ac_epp: Seq<Step>,
    pub ac_cooling: Level,
    pub dc_max_cap: u32,
    pub dc_max: Seq<Step>,
    pub dc_epp: Seq<Step>,
    pub dc_cooling: Level,
}

impl View for Policy {
    type V = PolicyModel;

    closed spec fn view(&self) -> PolicyModel {
        PolicyModel {
            ac_max: self.ac_max@,
            ac_turbo: self.ac_turbo@,
            ac_epp: self.ac_epp@,
            ac_cooling: self.ac_cooling,
            dc_max_cap: self.dc_max_cap,
            dc_max: self.dc_max@,
            dc_epp: self.dc_epp@,
            dc_cooling: self.dc_cooling,
        }
    }
}

/// `sorted` is `table` in order of threshold, and answers every load as
/// the least covering threshold of `table` does.
pub open spec fn ordered_from(sorted_table: Seq<Step>, table: Seq<Step>) -> bool {
    &&& sorted(sorted_table)
    &&& exists|p: Seq<int>, q: Seq<int>| stable_arrangement(sorted_table, table, p, q)
    &&& forall|load: Level| first_fit_value(sorted_table, load) == best_fit_value(table, load)
}

/// The value of the first covering row, or `default`.
pub open spec fn fit_or(t: Seq<Step>, load: Level, default: u32) -> u32 {
    match first_fit_value(t, load) {
        Some(v) => v,
        None => default,
    }
}

/// The cooling mode for a load: passive (0) up to the threshold, active (1)
/// above it, passive when the two do not compare.
pub open spec fn cooling_for(load: Level, threshold: Level) -> u32 {
    if at_most(load, threshold) {
        0
    } else if at_least(load, threshold) {
        1
    } else {
        0
    }
}

/// The settings that `p` calls for at a load, on mains power (`is_ac`) or
/// on battery.
///
/// On mains power: the first covering row of each table, else 100% max
/// state, boost 0, preference 100. On battery: the first covering row of
/// the max table capped by the battery cap, else the cap; boost 0; the
/// first covering row of the preference table, else the cap.
pub open spec fn targets_for(p: PolicyModel, load: Level, is_ac: bool) -> Targets {
    if is_ac {
        Targets {
            max: fit_or(p.ac_max, load, 100),
            turbo: fit_or(p.ac_turbo, load, 0),
            epp: fit_or(p.ac_epp, load, 100),
            cooling: cooling_for(load, p.ac_cooling),
        }
    } else {
        Targets {
            max: match first_fit_value(p.dc_max, load) {
                Some(v) => if v <= p.dc_max_cap {
                    v
                } else {
                    p.dc_max_cap
                },
                None => p.dc_max_cap,
            },
            turbo: 0,
            epp: fit_or(p.dc_epp, load, p.dc_max_cap),
            cooling: cooling_for(load, p.dc_cooling),
        }
    }
}

/// The threshold `th` is at or above the load `l`.
pub open spec fn reaches(th: Level, l: u32) -> bool {
    match th {
        Level::At(x) => l <= x,
        Level::Unordered => false,
    }
}

/// Row `i` is the first row of `t` whose threshold is at or above the load `l`.
pub open spec fn first_row_reaching(t: Seq<Step>, l: u32, i: int) -> bool {
    &&& 0 <= i < t.len()
    &&& reaches(t[i].threshold, l)
    &&& forall|j: int| 0 <= j < i ==> !reaches(#[trigger] t[j].threshold, l)
}

/// No row of `t` has a threshold at or above the load `l`.
pub open spec fn no_row_reaching(t: Seq<Step>, l: u32) -> bool {
    forall|j: int| 0 <= j < t.len() ==> !reaches(#[trigger] t[j].threshold, l)
}

/// The first row that reaches a load gives the table's answer for it; a
/// table no row of which reaches the load has no answer; a load without
/// order is reached by no row.
pub proof fn lemma_first_reaching_row_answers(t: Seq<Step>, l: u32, i: int)
    ensures
        first_row_reaching(t, l, i) ==> first_fit_value(t, Level::At(l)) == Some(t[i].value),
        no_row_reaching(t, l) ==> first_fit_value(t, Level::At(l)) is None,
        first_fit_value(t, Level::Unordered) is None,
{
    if first_row_reaching(t, l, i) {
        assert(is_first_fit(t, Level::At(l), i));
        assert forall|k: int| is_first_fit(t, Level::At(l), k) implies k == i by {
            if k < i {
                assert(!reaches(t[k].threshold, l));
            }
            if k > i {
                assert(!fits(t[i], Level::At(l)));
            }
        }
    }
    if no_row_reaching(t, l) {
        assert forall|k: int| !is_first_fit(t, Level::At(l), k) by {
            if 0 <= k < t.len() {
                assert(!reaches(t[k].threshold, l));
            }
        }
    }
    assert forall|k: int| !is_first_fit(t, Level::Unordered, k) by {}
}

/// On mains power each setting is the value of the first row of its table
/// whose threshold is at or above the load (equal thresholds included),
/// else 100% maximum state, boost 0, preference 100; cooling is active
/// exactly when the load is above the cooling threshold.
pub proof fn lemma_mains_settings(p: PolicyModel, l: u32, im: int, it: int, ie: int)
    ensures
        first_row_reaching(p.ac_max, l, im) ==> targets_for(p, Level::At(l), true).max
            == p.ac_max[im].value,
        no_row_reaching(p.ac_max, l) ==> targets_for(p, Level::At(l), true).max == 100,
        first_row_reaching(p.ac_turbo, l, it) ==> targets_for(p, Level::At(l), true).turbo
            == p.ac_turbo[it].value,
        no_row_reaching(p.ac_turbo, l) ==> targets_for(p, Level::At(l), true).turbo == 0,
        first_row_reaching(p.ac_epp, l, ie) ==> targets_for(p, Level::At(l), true).epp
            == p.ac_epp[ie].value,
        no_row_reaching(p.ac_epp, l) ==> targets_for(p, Level::At(l), true).epp == 100,
        targets_for(p, Level::At(l), true).cooling == match p.ac_cooling {
            Level::At(c) => if l > c {
                1u32
            } else {
                0u32
            },
            Level::Unordered => 0u32,
        },
{
    lemma_first_reaching_row_answers(p.ac_max, l, im);
    lemma_first_reaching_row_answers(p.ac_turbo, l, it);
    lemma_first_reaching_row_answers(p.ac_epp, l, ie);
}

/// On battery the maximum state is the value of the first row of its table
/// at or above the load, capped by the battery cap, else the cap; boost is
/// 0; the preference is the value of the first row of its table at or above
/// the load, else the cap; cooling is active exactly when the load is above
/// the battery cooling threshold.
pub proof fn lemma_battery_settings(p: PolicyModel, l: u32, im: int, ie: int)
    ensures
        first_row_reaching(p.dc_max, l, im) ==> targets_for(p, Level::At(l), false).max == if p.dc_max[im].value
            <= p.dc_max_cap {
            p.dc_max[im].value
        } else {
            p.dc_max_cap
        },
        no_row_reaching(p.dc_max, l) ==> targets_for(p, Level::At(l), false).max == p.dc_max_cap,
        targets_for(p, Level::At(l), false).turbo == 0,
        first_row_reaching(p.dc_epp, l, ie) ==> targets_for(p, Level::At(l), false).epp
            == p.dc_epp[ie].value,
        no_row_reaching(p.dc_epp, l) ==> targets_for(p, Level::At(l), false).epp == p.dc_max_cap,
        targets_for(p, Level::At(l), false).cooling == match p.dc_cooling {
            Level::At(c) => if l > c {
                1u32
            } else {
                0u32
            },
            Level::Unordered => 0u32,
        },
{
    lemma_first_reaching_row_answers(p.dc_max, l, im);
    lemma_first_reaching_row_answers(p.dc_epp, l, ie);
}

/// A load that compares with nothing gets the defaults: on mains power 100%
/// maximum state, boost 0, preference 100, passive cooling; on battery the
/// cap for maximum state and preference, boost 0, passive cooling.
pub proof fn lemma_unordered_load_defaults(p: PolicyModel)
    ensures
        targets_for(p, Level::Unordered, true) == (Targets { max: 100, turbo: 0, epp: 100, cooling: 0 }),
        targets_for(p, Level::Unordered, false) == (Targets {
            max: p.dc_max_cap,
            turbo: 0,
            epp: p.dc_max_cap,
            cooling: 0,
        }),
{
    lemma_first_reaching_row_answers(p.ac_max, 0, 0);
    lemma_first_reaching_row_answers(p.ac_turbo, 0, 0);
    lemma_first_reaching_row_answers(p.ac_epp, 0, 0);
    lemma_first_reaching_row_answers(p.dc_max, 0, 0);
    lemma_first_reaching_row_answers(p.dc_epp, 0, 0);
}

impl Policy {
    /// Builds the policy from the tables in file order, putting each in
    /// order of threshold.
    pub fn new(
        ac_max: &Vec<Step>,
        ac_turbo: &Vec<Step>,
        ac_epp: &Vec<Step>,
        ac_cooling: Level,
        dc_max_cap: u32,
        dc_max: &Vec<Step>,
        dc_epp: &Vec<Step>,
        dc_cooling: Level,
    ) -> (r: Policy)
        requires
            sortable(ac_max@),
            sortable(ac_turbo@),
            sortable(ac_epp@),
            sortable(dc_max@),
            sortable(dc_epp@),
        ensures
            ordered_from(r@.ac_max, ac_max@),
            ordered_from(r@.ac_turbo, ac_turbo@),
            ordered_from(r@.ac_epp, ac_epp@),
            ordered_from(r@.dc_max, dc_max@),
            ordered_from(r@.dc_epp, dc_epp@),
            r@.ac_cooling == ac_cooling,
            r@.dc_max_cap == dc_max_cap,
            r@.dc_cooling == dc_cooling,
    {
        Policy {
            ac_max: sort_by_threshold(ac_max),
            ac_turbo: sort_by_threshold(ac_turbo),
            ac_epp: sort_by_threshold(ac_epp),
            ac_cooling,
            dc_max_cap,
            dc_max: sort_by_threshold(dc_max),
            dc_epp: sort_by_threshold(dc_epp),
            dc_cooling,
        }
    }

    /// The settings this policy calls for at a load.
    pub fn choose_targets(&self, load: Level, is_ac: bool) -> (r: Targets)
        ensures
            r == targets_for(self@, load, is_ac),
            !is_ac ==> r.max <= self@.dc_max_cap,
    {
        if is_ac {
            let max = match first_fit(&self.ac_max, load) {
                Some(v) => v,
                None => 100,
            };
            let turbo = match first_fit(&self.ac_turbo, load) {
                Some(v) => v,
                None => 0,
            };
            let epp = match first_fit(&self.ac_epp, load) {
                Some(v) => v,
                None => 100,
            };
            Targets { max, turbo, epp, cooling: cooling_mode(load, self.ac_cooling) }
        } else {
            let cap = self.dc_max_cap;
            let max = match first_fit(&self.dc_max, load) {
                Some(v) => if v <= cap {
                    v
                } else {
                    cap
                },
                None => cap,
            };
            let epp = match first_fit(&self.dc_epp, load) {
                Some(v) => v,
                None => cap,
            };
            Targets { max, turbo: 0, epp, cooling: cooling_mode(load, self.dc_cooling) }
        }
    }
}

/// The cooling mode for a load against a threshold.
pub fn cooling_mode(load: Level, threshold: Level) -> (r: u32)
    ensures
        r == cooling_for(load, threshold),
        r == 1 <==> at_least(load, threshold) && !at_most(load, threshold),
{
    if level_at_most(load, threshold) {
        0
    } else if level_at_least(load, threshold) {
        1
    } else {
        0
    }
}

} // verus!
