//! The rules by which the governor reads what the operating system and the
//! user report, and the names it gives things.

use vstd::prelude::*;
use crate::text::{
    decode_utf16_lossy, encode_utf16, encode_utf16_str, from_utf16_lossy, is_exactly,
    lemma_utf16_round_trip, lowercase, to_lowercase, trim, trim_nul, trim_nul_str, trim_str,
};

verus! {

/// What the command line asks for.
#[derive(Clone, Copy, Debug, PartialEq, Eq)]
pub enum Mode {
    Install,
    Uninstall,
    /// Keep the plan active and print the settings every second.
    Monitor,
    /// Govern the processor settings every second.
    Run,
    /// Make the plan active and stop.
    ActivateOnly,
}

/// More than one of the flags was given.
#[derive(Clone, Copy, Debug, PartialEq, Eq)]
pub struct TooManyFlags;

pub open spec fn flag_count(install: bool, uninstall: bool, run: bool, monitor: bool) -> nat {
    (if install { 1nat } else { 0nat }) + (if uninstall { 1nat } else { 0nat }) + (if run {
        1nat
    } else {
        0nat
    }) + (if monitor { 1nat } else { 0nat })
}

/// What the flags ask for: at most one may be given; install, uninstall,
/// monitor and run in that order of precedence, else only the plan is
/// activated.
pub open spec fn mode_for(install: bool, uninstall: bool, run: bool, monitor: bool) -> Result<
    Mode,
    TooManyFlags,
> {
    if flag_count(install, uninstall, run, monitor) > 1 {
        Err(TooManyFlags)
    } else if install {
        Ok(Mode::Install)
    } else if uninstall {
        Ok(Mode::Uninstall)
    } else if monitor {
        Ok(Mode::Monitor)
    } else if run {
        Ok(Mode::Run)
    } else {
        Ok(Mode::ActivateOnly)
    }
}

/// Some two of the four flags are given together.
pub open spec fn two_or_more(install: bool, uninstall: bool, run: bool, monitor: bool) -> bool {
    ||| install && uninstall
    ||| install && run
    ||| install && monitor
    ||| uninstall && run
    ||| uninstall && monitor
    ||| run && monitor
}

/// Any two flags together are refused; a flag given alone selects its
/// mode; no flag only activates the plan.
pub proof fn lemma_one_flag_at_a_time(install: bool, uninstall: bool, run: bool, monitor: bool)
    ensures
        two_or_more(install, uninstall, run, monitor) ==> mode_for(install, uninstall, run, monitor)
            == Err::<Mode, TooManyFlags>(TooManyFlags),
        !two_or_more(install, uninstall, run, monitor) ==> mode_for(
            install,
            uninstall,
            run,
            monitor,
        ) is Ok,
        install && !uninstall && !run && !monitor ==> mode_for(install, uninstall, run, monitor)
            == Ok::<Mode, TooManyFlags>(Mode::Install),
        !install && uninstall && !run && !monitor ==> mode_for(install, uninstall, run, monitor)
            == Ok::<Mode, TooManyFlags>(Mode::Uninstall),
        !install && !uninstall && run && !monitor ==> mode_for(install, uninstall, run, monitor)
            == Ok::<Mode, TooManyFlags>(Mode::Run),
        !install && !uninstall && !run && monitor ==> mode_for(install, uninstall, run, monitor)
            == Ok::<Mode, TooManyFlags>(Mode::Monitor),
        !install && !uninstall && !run && !monitor ==> mode_for(install, uninstall, run, monitor)
            == Ok::<Mode, TooManyFlags>(Mode::ActivateOnly),
{
}

/// Decides what the command line asks for.
pub fn select_mode(install: bool, uninstall: bool, run: bool, monitor: bool) -> (r: Result<
    Mode,
    TooManyFlags,
>)
    ensures
        r == mode_for(install, uninstall, run, monitor),
        two_or_more(install, uninstall, run, monitor) ==> r == Err::<Mode, TooManyFlags>(
            TooManyFlags,
        ),
        install && !uninstall && !run && !monitor ==> r == Ok::<Mode, TooManyFlags>(Mode::Install),
        !install && uninstall && !run && !monitor ==> r == Ok::<Mode, TooManyFlags>(
            Mode::Uninstall,
        ),
        !install && !uninstall && run && !monitor ==> r == Ok::<Mode, TooManyFlags>(Mode::Run),
        !install && !uninstall && !run && monitor ==> r == Ok::<Mode, TooManyFlags>(Mode::Monitor),
        !install && !uninstall && !run && !monitor ==> r == Ok::<Mode, TooManyFlags>(
            Mode::ActivateOnly,
        ),
{
    proof {
        lemma_one_flag_at_a_time(install, uninstall, run, monitor);
    }
    let mut count: u32 = 0;
    if install {
        count = count + 1;
    }
    if uninstall {
        count = count + 1;
    }
    if run {
        count = count + 1;
    }
    if monitor {
        count = count + 1;
    }
    if count > 1 {
        Err(TooManyFlags)
    } else if install {
        Ok(Mode::Install)
    } else if uninstall {
        Ok(Mode::Uninstall)
    } else if monitor {
        Ok(Mode::Monitor)
    } else if run {
        Ok(Mode::Run)
    } else {
        Ok(Mode::ActivateOnly)
    }
}

/// Whether the machine runs on mains power, from the AC line status the
/// system reports (`None` when it could not be read): on mains power when
/// the status is 1, and when there is no status.
pub fn on_mains_power(line_status: Option<u8>) -> (r: bool)
    ensures
        r == match line_status {
            Some(s) => s == 1,
            None => true,
        },
{
    match line_status {
        Some(s) => s == 1,
        None => true,
    }
}

/// Why a power setting could not be read.
#[derive(Clone, Copy, Debug, PartialEq, Eq)]
pub enum ReadFailure {
    /// The system answered `ERROR_FILE_NOT_FOUND` (2): the setting does not
    /// exist on this machine.
    NotSupported,
    /// Any other error code.
    Api(u32),
}

/// The outcome of reading a setting: the value on code 0, else the failure.
pub fn read_outcome(code: u32, value: u32) -> (r: Result<u32, ReadFailure>)
    ensures
        code == 0 ==> r == Ok::<u32, ReadFailure>(value),
        code == 2 ==> r == Err::<u32, ReadFailure>(ReadFailure::NotSupported),
        code != 0 && code != 2 ==> r == Err::<u32, ReadFailure>(ReadFailure::Api(code)),
{
    if code == 0 {
        Ok(value)
    } else if code == 2 {
        Err(ReadFailure::NotSupported)
    } else {
        Err(ReadFailure::Api(code))
    }
}

/// The outcome of writing a setting: done on code 0, else the code.
pub fn write_outcome(code: u32) -> (r: Result<(), u32>)
    ensures
        code == 0 ==> r is Ok,
        code != 0 ==> r == Err::<(), u32>(code),
{
    if code == 0 {
        Ok(())
    } else {
        Err(code)
    }
}

/// How the boost mode is shown: 0 `Disabled`, 1 `Enabled`, 2 `Aggressive`;
/// other values are shown as their number.
pub fn boost_label(v: u32) -> (r: Option<&'static str>)
    ensures
        v == 0 ==> (r matches Some(s) && s@ == "Disabled"@),
        v == 1 ==> (r matches Some(s) && s@ == "Enabled"@),
        v == 2 ==> (r matches Some(s) && s@ == "Aggressive"@),
        v > 2 ==> r is None,
{
    if v == 0 {
        Some("Disabled")
    } else if v == 1 {
        Some("Enabled")
    } else if v == 2 {
        Some("Aggressive")
    } else {
        None
    }
}

/// How the cooling policy is shown: 0 `Passive`, any other value `Active`.
pub fn cooling_label(v: u32) -> (r: &'static str)
    ensures
        v == 0 ==> r@ == "Passive"@,
        v != 0 ==> r@ == "Active"@,
{
    if v == 0 {
        "Passive"
    } else {
        "Active"
    }
}

/// How the power source is shown: `AC` on mains power, else `DC`.
pub fn source_label(is_ac: bool) -> (r: &'static str)
    ensures
        is_ac ==> r@ == "AC"@,
        !is_ac ==> r@ == "DC"@,
{
    if is_ac {
        "AC"
    } else {
        "DC"
    }
}

/// Whether another instance is running: some process of the governor's
/// name has an id other than `current`.
pub fn another_instance_running(pids: &Vec<u32>, current: u32) -> (r: bool)
    ensures
        r == exists|i: int| 0 <= i < pids@.len() && pids@[i] != current,
{
    let mut i: usize = 0;
    while i < pids.len()
        invariant
            i <= pids@.len(),
            forall|j: int| 0 <= j < i ==> pids@[j] == current,
        decreases pids@.len() - i,
    {
        if pids[i] != current {
            return true;
        }
        i = i + 1;
    }
    false
}

/// `s` is the answer `y` or `yes`.
pub open spec fn is_yes(s: Seq<char>) -> bool {
    s == seq!['y'] || s == seq!['y', 'e', 's']
}

/// Whether a lowercased answer is `y` or `yes`.
pub fn is_yes_answer(lowered: &str) -> (r: bool)
    ensures
        r == is_yes(lowered@),
        r <==> lowered@ == seq!['y'] || lowered@ == seq!['y', 'e', 's'],
{
    let y: [char; 1] = ['y'];
    let yes: [char; 3] = ['y', 'e', 's'];
    assert(y@ =~= seq!['y']);
    assert(yes@ =~= seq!['y', 'e', 's']);
    is_exactly(lowered, &y) || is_exactly(lowered, &yes)
}

/// Whether the line the user typed confirms: trimmed and lowercased, it
/// is `y` or `yes`.
pub fn is_confirmation(input: &str) -> (r: bool)
    ensures
        r == is_yes(lowercase(trim(input@))),
        r <==> lowercase(trim(input@)) == seq!['y'] || lowercase(trim(input@)) == seq!['y', 'e', 's'],
{
    let t = trim_str(input);
    let l = to_lowercase(t);
    is_yes_answer(l.as_str())
}

/// The name of a power plan as the system stores it, decoded and without
/// the NUL characters around it.
pub open spec fn plan_name(units: Seq<u16>) -> Seq<char> {
    trim_nul(decode_utf16_lossy(units))
}

/// A plan name matches the target when both lowercase to the same text.
pub open spec fn names_match(units: Seq<u16>, target: Seq<char>) -> bool {
    lowercase(plan_name(units)) == lowercase(target)
}

/// A stored plan name matches a target exactly when the name, decoded and
/// stripped of its NULs, lowercases to the same text as the target.
pub proof fn lemma_names_match_is_lowercase_equality(units: Seq<u16>, target: Seq<char>)
    ensures
        names_match(units, target) <==> lowercase(trim_nul(decode_utf16_lossy(units))) == lowercase(
            target,
        ),
{
}

/// Whether the plan whose name was read is the target plan: the read
/// succeeded (`status` 0), gave a name (`byte_len` bytes, more than none),
/// and that name matches.
pub fn plan_name_matches(status: u32, buffer: &[u16], byte_len: u32, target: &str) -> (r: bool)
    requires
        status == 0 && byte_len > 0 ==> byte_len / 2 <= buffer@.len(),
    ensures
        r == (status == 0 && byte_len > 0 && names_match(
            buffer@.take((byte_len / 2) as int),
            target@,
        )),
        r <==> status == 0 && byte_len > 0 && lowercase(
            trim_nul(decode_utf16_lossy(buffer@.take((byte_len / 2) as int))),
        ) == lowercase(target@),
{
    proof {
        lemma_names_match_is_lowercase_equality(buffer@.take((byte_len / 2) as int), target@);
    }
    if status != 0 || byte_len == 0 {
        return false;
    }
    let units = vstd::slice::slice_subrange(buffer, 0, (byte_len / 2) as usize);
    assert(units@ =~= buffer@.take((byte_len / 2) as int));
    let decoded = from_utf16_lossy(units);
    let name = trim_nul_str(decoded.as_str());
    let a = to_lowercase(name);
    let b = to_lowercase(target);
    same_text(&a, &b)
}

/// Whether two lowercased names are the same text.
pub fn same_text(a: &String, b: &String) -> (r: bool)
    ensures
        r == (a@ == b@),
{
    *a == *b
}

/// The name given to a new plan, as the system stores it: the target and a
/// NUL, in UTF-16.
pub fn plan_name_units(target: &str) -> (r: Vec<u16>)
    ensures
        r@ == encode_utf16(target@.push('\0')),
{
    let mut units = encode_utf16_str(target);
    units.push(0);
    proof {
        let s = target@.push('\0');
        assert(s.drop_last() =~= target@);
        vstd::utf8::char_u32_cast('\0', 0);
        assert(crate::text::utf16_of_char('\0') =~= seq![0u16]);
        assert(units@ =~= encode_utf16(target@) + crate::text::utf16_of_char('\0'));
    }
    units
}

/// A plan given a name by `plan_name_units` matches that name when read
/// back, whole, provided the name neither begins nor ends with NUL.
pub proof fn lemma_named_plan_is_found(target: Seq<char>)
    requires
        target.len() > 0 ==> target[0] != '\0' && target.last() != '\0',
    ensures
        names_match(encode_utf16(target.push('\0')), target),
{
    let s = target.push('\0');
    lemma_utf16_round_trip(s);
    let drop = crate::text::nul_pred();
    if target.len() == 0 {
        assert(s.drop_first() =~= Seq::<char>::empty());
        assert(s[0] == '\0');
        assert(drop(s[0]));
        assert(crate::text::strip_front(s.drop_first(), drop) == s.drop_first());
        assert(crate::text::strip_front(s, drop) == Seq::<char>::empty());
        assert(trim_nul(s) =~= target);
    } else {
        assert(crate::text::strip_front(s, drop) == s);
        assert(s.drop_last() =~= target);
        assert(crate::text::strip_back(s, drop) == crate::text::strip_back(target, drop));
        assert(crate::text::strip_back(target, drop) == target);
    }
}

} // verus!
