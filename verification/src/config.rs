//! The configuration file: lines of `key=value`, where a key names either a
//! row of a load table (`ac_<load>_max`, `dc_<load>_epp`, ...) or a single
//! setting (`ac_cooling_threshold`, `dc_max_cap`, `dc_cooling_threshold`).

use vstd::prelude::*;
use crate::text::{
    ends_with, has_prefix, has_suffix, is_exactly, parse_u32, parse_u32_str, starts_with, trim,
    trim_str,
};

verus! {

/// One row of a load table as the file writes it: the text of the load
/// between the key's prefix and suffix, and the value.
#[derive(Debug)]
pub struct Entry {
    pub threshold: String,
    pub value: u32,
}

impl View for Entry {
    type V = (Seq<char>, u32);

    open spec fn view(&self) -> (Seq<char>, u32) {
        (self.threshold@, self.value)
    }
}

/// The configuration as read from the file, tables in file order.
#[derive(Debug)]
pub struct RawConfig {
    pub ac_max: Vec<Entry>,
    pub ac_turbo: Vec<Entry>,
    pub ac_epp: Vec<Entry>,
    pub ac_cooling: u32,
    pub dc_max_cap: u32,
    pub dc_max: Vec<Entry>,
    pub dc_epp: Vec<Entry>,
    pub dc_cooling: u32,
}

/// The mathematical content of a `RawConfig`.
#[verifier::ext_equal]
pub struct ConfigModel {
    pub ac_max: Seq<(Seq<char>, u32)>,
    pub ac_turbo: Seq<(Seq<char>, u32)>,
    pub ac_epp: Seq<(Seq<char>, u32)>,
    pub ac_cooling: u32,
    pub dc_max_cap: u32,
    pub dc_max: Seq<(Seq<char>, u32)>,
    pub dc_epp: Seq<(Seq<char>, u32)>,
    pub dc_cooling: u32,
}

pub open spec fn table_view(t: Seq<Entry>) -> Seq<(Seq<char>, u32)> {
    t.map_values(|e: Entry| e@)
}

impl View for RawConfig {
    type V = ConfigModel;

    open spec fn view(&self) -> ConfigModel {
        ConfigModel {
            ac_max: table_view(self.ac_max@),
            ac_turbo: table_view(self.ac_turbo@),
            ac_epp: table_view(self.ac_epp@),
            ac_cooling: self.ac_cooling,
            dc_max_cap: self.dc_max_cap,
            dc_max: table_view(self.dc_max@),
            dc_epp: table_view(self.dc_epp@),
            dc_cooling: self.dc_cooling,
        }
    }
}

/// The configuration before any line is read: empty tables, a cooling
/// threshold of 45 on mains power and 60 on battery, a battery cap of 70.
pub open spec fn initial_model() -> ConfigModel {
    ConfigModel {
        ac_max: Seq::empty(),
        ac_turbo: Seq::empty(),
        ac_epp: Seq::empty(),
        ac_cooling: 45,
        dc_max_cap: 70,
        dc_max: Seq::empty(),
        dc_epp: Seq::empty(),
        dc_cooling: 60,
    }
}

pub open spec fn ac_prefix() -> Seq<char> {
    seq!['a', 'c', '_']
}

pub open spec fn dc_prefix() -> Seq<char> {
    seq!['d', 'c', '_']
}

pub open spec fn max_suffix() -> Seq<char> {
    seq!['_', 'm', 'a', 'x']
}

pub open spec fn turbo_suffix() -> Seq<char> {
    seq!['_', 't', 'u', 'r', 'b', 'o']
}

pub open spec fn epp_suffix() -> Seq<char> {
    seq!['_', 'e', 'p', 'p']
}

pub open spec fn cooling_key_tail() -> Seq<char> {
    seq!['c', 'o', 'o', 'l', 'i', 'n', 'g', '_', 't', 'h', 'r', 'e', 's', 'h', 'o', 'l', 'd']
}

/// `ac_cooling_threshold`
pub open spec fn ac_cooling_key() -> Seq<char> {
    ac_prefix() + cooling_key_tail()
}

/// `dc_cooling_threshold`
pub open spec fn dc_cooling_key() -> Seq<char> {
    dc_prefix() + cooling_key_tail()
}

/// `dc_max_cap`
pub open spec fn dc_max_cap_key() -> Seq<char> {
    seq!['d', 'c', '_', 'm', 'a', 'x', '_', 'c', 'a', 'p']
}

/// What a key means.
pub enum KeyMeaning {
    AcMax(Seq<char>),
    AcTurbo(Seq<char>),
    AcEpp(Seq<char>),
    AcCooling,
    DcMaxCap,
    DcMax(Seq<char>),
    DcEpp(Seq<char>),
    DcCooling,
    /// A key that names nothing; its line is read and ignored.
    Unknown,
    /// A key whose prefix and suffix overlap (`ac_max`, `ac_turbo`, `ac_epp`,
    /// `dc_max`, `dc_epp`): there is no load text between them to cut out.
    Unsliceable,
}

/// The text between the three-character prefix and a suffix of `n` characters.
pub open spec fn middle(k: Seq<char>, n: int) -> Seq<char> {
    k.subrange(3, k.len() - n)
}

/// What the key `k` (already trimmed) means, the first rule that matches
/// deciding.
pub open spec fn key_meaning(k: Seq<char>) -> KeyMeaning {
    if starts_with(k, ac_prefix()) && ends_with(k, max_suffix()) {
        if k.len() < 7 { KeyMeaning::Unsliceable } else { KeyMeaning::AcMax(middle(k, 4)) }
    } else if starts_with(k, ac_prefix()) && ends_with(k, turbo_suffix()) {
        if k.len() < 9 { KeyMeaning::Unsliceable } else { KeyMeaning::AcTurbo(middle(k, 6)) }
    } else if starts_with(k, ac_prefix()) && ends_with(k, epp_suffix()) {
        if k.len() < 7 { KeyMeaning::Unsliceable } else { KeyMeaning::AcEpp(middle(k, 4)) }
    } else if k == ac_cooling_key() {
        KeyMeaning::AcCooling
    } else if k == dc_max_cap_key() {
        KeyMeaning::DcMaxCap
    } else if starts_with(k, dc_prefix()) && ends_with(k, max_suffix()) {
        if k.len() < 7 { KeyMeaning::Unsliceable } else { KeyMeaning::DcMax(middle(k, 4)) }
    } else if starts_with(k, dc_prefix()) && ends_with(k, epp_suffix()) {
        if k.len() < 7 { KeyMeaning::Unsliceable } else { KeyMeaning::DcEpp(middle(k, 4)) }
    } else if k == dc_cooling_key() {
        KeyMeaning::DcCooling
    } else {
        KeyMeaning::Unknown
    }
}

/// The configuration after a key of meaning `k` is given the value `v`.
pub open spec fn record(m: ConfigModel, k: KeyMeaning, v: u32) -> ConfigModel {
    match k {
        KeyMeaning::AcMax(t) => ConfigModel { ac_max: m.ac_max.push((t, v)), ..m },
        KeyMeaning::AcTurbo(t) => ConfigModel { ac_turbo: m.ac_turbo.push((t, v)), ..m },
        KeyMeaning::AcEpp(t) => ConfigModel { ac_epp: m.ac_epp.push((t, v)), ..m },
        KeyMeaning::AcCooling => ConfigModel { ac_cooling: v, ..m },
        KeyMeaning::DcMaxCap => ConfigModel { dc_max_cap: v, ..m },
        KeyMeaning::DcMax(t) => ConfigModel { dc_max: m.dc_max.push((t, v)), ..m },
        KeyMeaning::DcEpp(t) => ConfigModel { dc_epp: m.dc_epp.push((t, v)), ..m },
        KeyMeaning::DcCooling => ConfigModel { dc_cooling: v, ..m },
        _ => m,
    }
}

/// The keys of table rows: `ac_<t>_max`, `ac_<t>_turbo`, `ac_<t>_epp`,
/// `dc_<t>_max`, `dc_<t>_epp` name a row of the matching table with the load
/// text `t`, whatever `t` is.
pub proof fn lemma_row_keys(t: Seq<char>)
    ensures
        key_meaning(ac_prefix() + t + max_suffix()) == KeyMeaning::AcMax(t),
        key_meaning(ac_prefix() + t + turbo_suffix()) == KeyMeaning::AcTurbo(t),
        key_meaning(ac_prefix() + t + epp_suffix()) == KeyMeaning::AcEpp(t),
        key_meaning(dc_prefix() + t + max_suffix()) == KeyMeaning::DcMax(t),
        key_meaning(dc_prefix() + t + epp_suffix()) == KeyMeaning::DcEpp(t),
{
    lemma_row_key(ac_prefix(), t, max_suffix());
    lemma_row_key(ac_prefix(), t, turbo_suffix());
    lemma_row_key(ac_prefix(), t, epp_suffix());
    lemma_row_key(dc_prefix(), t, max_suffix());
    lemma_row_key(dc_prefix(), t, epp_suffix());
    let n = t.len() as int;
    let k = ac_prefix() + t + turbo_suffix();
    assert(k.skip(k.len() - 4)[0] == 'u');
    let k = ac_prefix() + t + epp_suffix();
    assert(k.skip(k.len() - 4)[1] == 'e');
    assert(k.skip(k.len() - 6)[2] == '_');
    let k = dc_prefix() + t + max_suffix();
    assert(k.take(3)[0] == 'd');
    assert(k[0] == 'd');
    if k.len() == 10 {
        assert(k[7] == 'm');
    }
    let k = dc_prefix() + t + epp_suffix();
    assert(k.take(3)[0] == 'd');
    assert(k[0] == 'd');
    assert(k.skip(k.len() - 4)[1] == 'e');
    if k.len() == 10 {
        assert(k[7] == 'e');
    }
}

proof fn lemma_row_key(p: Seq<char>, t: Seq<char>, x: Seq<char>)
    requires
        p.len() == 3,
    ensures
        starts_with(p + t + x, p),
        ends_with(p + t + x, x),
        middle(p + t + x, x.len() as int) == t,
        (p + t + x).len() == 3 + t.len() + x.len(),
{
    let k = p + t + x;
    assert(k.take(3) =~= p);
    assert(k.skip(k.len() - x.len()) =~= x);
    assert(middle(k, x.len() as int) =~= t);
}

/// The keys of single settings name them.
pub proof fn lemma_setting_keys()
    ensures
        key_meaning(ac_cooling_key()) == KeyMeaning::AcCooling,
        key_meaning(dc_max_cap_key()) == KeyMeaning::DcMaxCap,
        key_meaning(dc_cooling_key()) == KeyMeaning::DcCooling,
{
    let k = ac_cooling_key();
    assert(k.len() == 20);
    assert(k.skip(16)[0] == 'h');
    assert(k.skip(14)[0] == 'e');
    let k = dc_max_cap_key();
    assert(k[0] == 'd');
    assert(k.take(3)[0] == 'd');
    let k = dc_cooling_key();
    assert(k[0] == 'd');
    assert(k.take(3)[0] == 'd');
    assert(k.len() == 20);
    assert(k.skip(16)[0] == 'h');
}

/// A key beginning with neither `ac_` nor `dc_` names nothing.
pub proof fn lemma_other_keys_are_unknown(k: Seq<char>)
    requires
        !starts_with(k, ac_prefix()),
        !starts_with(k, dc_prefix()),
    ensures
        key_meaning(k) == KeyMeaning::Unknown,
{
    assert(ac_cooling_key().take(3) =~= ac_prefix());
    assert(dc_cooling_key().take(3) =~= dc_prefix());
    assert(dc_max_cap_key().take(3) =~= dc_prefix());
}

/// `ac_max`, `ac_turbo`, `ac_epp`, `dc_max` and `dc_epp` leave no room for a
/// load between prefix and suffix.
pub proof fn lemma_overlapping_keys()
    ensures
        key_meaning(ac_prefix() + max_suffix().drop_first()) is Unsliceable,
        key_meaning(ac_prefix() + turbo_suffix().drop_first()) is Unsliceable,
        key_meaning(ac_prefix() + epp_suffix().drop_first()) is Unsliceable,
        key_meaning(dc_prefix() + max_suffix().drop_first()) is Unsliceable,
        key_meaning(dc_prefix() + epp_suffix().drop_first()) is Unsliceable,
{
    let k = ac_prefix() + max_suffix().drop_first();
    assert(k.take(3) =~= ac_prefix());
    assert(k.skip(2) =~= max_suffix());
    let k = ac_prefix() + turbo_suffix().drop_first();
    assert(k.take(3) =~= ac_prefix());
    assert(k.skip(2) =~= turbo_suffix());
    assert(k.skip(4)[0] == 'u');
    let k = ac_prefix() + epp_suffix().drop_first();
    assert(k.take(3) =~= ac_prefix());
    assert(k.skip(2) =~= epp_suffix());
    assert(k.skip(2)[1] == 'e');
    let k = dc_prefix() + max_suffix().drop_first();
    assert(k.take(3) =~= dc_prefix());
    assert(k.take(3)[0] == 'd');
    assert(k.skip(2) =~= max_suffix());
    let k = dc_prefix() + epp_suffix().drop_first();
    assert(k.take(3) =~= dc_prefix());
    assert(k.take(3)[0] == 'd');
    assert(k.skip(2) =~= epp_suffix());
    assert(k.skip(2)[1] == 'e');
}

/// What one line of the file says.
pub enum LineModel {
    /// Blank, or a comment (`#` as its first character).
    Skip,
    /// A trimmed key and the value after the one `=`.
    Pair(Seq<char>, u32),
    /// No `=`, or more than one.
    BadFormat,
    /// One `=`, but no `u32` after it; the trimmed key.
    BadNumber(Seq<char>),
}

/// `p` is the position of the only `=` in `line`.
pub open spec fn sole_separator(line: Seq<char>, p: int) -> bool {
    &&& 0 <= p < line.len()
    &&& line[p] == '='
    &&& forall|i: int| 0 <= i < line.len() && line[i] == '=' ==> i == p
}

pub open spec fn is_skipped(line: Seq<char>) -> bool {
    trim(line).len() == 0 || (line.len() > 0 && line[0] == '#')
}

pub open spec fn line_model(line: Seq<char>) -> LineModel {
    if is_skipped(line) {
        LineModel::Skip
    } else if exists|p: int| sole_separator(line, p) {
        let p = choose|p: int| sole_separator(line, p);
        let key = trim(line.take(p));
        match parse_u32(trim(line.skip(p + 1))) {
            Some(v) => LineModel::Pair(key, v),
            None => LineModel::BadNumber(key),
        }
    } else {
        LineModel::BadFormat
    }
}

/// Where reading the file ends.
pub enum ConfigOutcome {
    Parsed(ConfigModel),
    /// The line (numbered from 1) has no `=` or more than one.
    InvalidFormat(nat),
    /// The line (numbered from 1) has no number after its `=`; the key.
    InvalidNumber(nat, Seq<char>),
    /// The line (numbered from 1) holds a key with no room for a load.
    Unsliceable(nat),
}

/// Reading line number `number`, `line`, into `m`.
pub open spec fn read_line(m: ConfigModel, line: Seq<char>, number: nat) -> ConfigOutcome {
    match line_model(line) {
        LineModel::Skip => ConfigOutcome::Parsed(m),
        LineModel::BadFormat => ConfigOutcome::InvalidFormat(number),
        LineModel::BadNumber(k) => ConfigOutcome::InvalidNumber(number, k),
        LineModel::Pair(k, v) => if key_meaning(k) is Unsliceable {
            ConfigOutcome::Unsliceable(number)
        } else {
            ConfigOutcome::Parsed(record(m, key_meaning(k), v))
        },
    }
}

/// Reading `lines` in order from the initial configuration, stopping at the
/// first line that cannot be read.
pub open spec fn read_lines(lines: Seq<Seq<char>>) -> ConfigOutcome
    decreases lines.len(),
{
    if lines.len() == 0 {
        ConfigOutcome::Parsed(initial_model())
    } else {
        match read_lines(lines.drop_last()) {
            ConfigOutcome::Parsed(m) => read_line(m, lines.last(), lines.len()),
            other => other,
        }
    }
}

/// How a line is read: a line starting with `#` or holding only whitespace
/// is skipped; otherwise a line with exactly one `=` gives the trimmed text
/// before it as the key and the number after it, trimmed, as the value, or
/// is refused for its number; a line with no `=` or several is refused for
/// its format.
pub proof fn lemma_how_a_line_reads(line: Seq<char>, p: int)
    ensures
        line.len() > 0 && line[0] == '#' ==> line_model(line) == LineModel::Skip,
        trim(line).len() == 0 ==> line_model(line) == LineModel::Skip,
        ({
            &&& !(line.len() > 0 && line[0] == '#')
            &&& trim(line).len() > 0
            &&& 0 <= p < line.len()
            &&& line[p] == '='
            &&& forall|i: int| 0 <= i < line.len() && i != p ==> line[i] != '='
        }) ==> line_model(line) == match parse_u32(trim(line.skip(p + 1))) {
            Some(v) => LineModel::Pair(trim(line.take(p)), v),
            None => LineModel::BadNumber(trim(line.take(p))),
        },
        ({
            &&& !(line.len() > 0 && line[0] == '#')
            &&& trim(line).len() > 0
            &&& forall|i: int| 0 <= i < line.len() ==> line[i] != '='
        }) ==> line_model(line) == LineModel::BadFormat,
        ({
            &&& !(line.len() > 0 && line[0] == '#')
            &&& trim(line).len() > 0
            &&& 0 <= p < line.len()
            &&& line[p] == '='
            &&& exists|i: int| 0 <= i < line.len() && i != p && line[i] == '='
        }) ==> line_model(line) == LineModel::BadFormat,
{
    if !(line.len() > 0 && line[0] == '#') && trim(line).len() > 0 && 0 <= p < line.len() && line[p]
        == '=' {
        if forall|i: int| 0 <= i < line.len() && i != p ==> line[i] != '=' {
            assert(sole_separator(line, p));
            assert forall|q: int| sole_separator(line, q) implies q == p by {}
        } else {
            let i = choose|i: int| 0 <= i < line.len() && i != p && line[i] == '=';
            assert forall|q: int| !sole_separator(line, q) by {
                if sole_separator(line, q) {
                    assert(i == q && p == q);
                }
            }
        }
    }
}

/// A line reads into the configuration it follows: the single settings
/// take the value it gives, and a row key adds the row at the end of its
/// table, everything else staying as it was.
pub proof fn lemma_a_line_sets_its_key(m: ConfigModel, line: Seq<char>, n: nat, t: Seq<char>, v: u32)
    ensures
        line_model(line) == LineModel::Pair(dc_max_cap_key(), v) ==> read_line(m, line, n)
            == ConfigOutcome::Parsed(ConfigModel { dc_max_cap: v, ..m }),
        line_model(line) == LineModel::Pair(ac_cooling_key(), v) ==> read_line(m, line, n)
            == ConfigOutcome::Parsed(ConfigModel { ac_cooling: v, ..m }),
        line_model(line) == LineModel::Pair(dc_cooling_key(), v) ==> read_line(m, line, n)
            == ConfigOutcome::Parsed(ConfigModel { dc_cooling: v, ..m }),
        line_model(line) == LineModel::Pair(ac_prefix() + t + max_suffix(), v) ==> read_line(
            m,
            line,
            n,
        ) == ConfigOutcome::Parsed(ConfigModel { ac_max: m.ac_max.push((t, v)), ..m }),
        line_model(line) == LineModel::Pair(ac_prefix() + t + turbo_suffix(), v) ==> read_line(
            m,
            line,
            n,
        ) == ConfigOutcome::Parsed(ConfigModel { ac_turbo: m.ac_turbo.push((t, v)), ..m }),
        line_model(line) == LineModel::Pair(ac_prefix() + t + epp_suffix(), v) ==> read_line(
            m,
            line,
            n,
        ) == ConfigOutcome::Parsed(ConfigModel { ac_epp: m.ac_epp.push((t, v)), ..m }),
        line_model(line) == LineModel::Pair(dc_prefix() + t + max_suffix(), v) ==> read_line(
            m,
            line,
            n,
        ) == ConfigOutcome::Parsed(ConfigModel { dc_max: m.dc_max.push((t, v)), ..m }),
        line_model(line) == LineModel::Pair(dc_prefix() + t + epp_suffix(), v) ==> read_line(
            m,
            line,
            n,
        ) == ConfigOutcome::Parsed(ConfigModel { dc_epp: m.dc_epp.push((t, v)), ..m }),
{
    lemma_row_keys(t);
    lemma_setting_keys();
}

/// Reading goes on line after line: once the lines before have been read,
/// the file with one more line reads as that line read into their
/// configuration; after a refused line nothing more is read.
pub proof fn lemma_reading_goes_line_by_line(lines: Seq<Seq<char>>, line: Seq<char>)
    ensures
        read_lines(lines.push(line)) == match read_lines(lines) {
            ConfigOutcome::Parsed(m) => read_line(m, line, lines.len() + 1),
            other => other,
        },
{
    assert(lines.push(line).drop_last() =~= lines);
}

/// The last `dc_max_cap` line of a readable file decides the cap, whatever
/// its value and whatever came before.
pub proof fn lemma_last_cap_line_wins(lines: Seq<Seq<char>>, line: Seq<char>, v: u32)
    requires
        read_lines(lines) is Parsed,
        line_model(line) == LineModel::Pair(dc_max_cap_key(), v),
    ensures
        read_lines(lines.push(line)) is Parsed,
        read_lines(lines.push(line))->Parsed_0.dc_max_cap == v,
        read_lines(lines.push(line))->Parsed_0.dc_max == read_lines(lines)->Parsed_0.dc_max,
{
    lemma_reading_goes_line_by_line(lines, line);
    lemma_a_line_sets_its_key(read_lines(lines)->Parsed_0, line, lines.len() + 1, Seq::empty(), v);
}

/// After lines that read, a skipped line changes nothing, and a refused
/// line ends reading with its number (counted from 1) and, for a bad
/// number, its key; once reading has ended, later lines change nothing.
pub proof fn lemma_refusals_are_reported(lines: Seq<Seq<char>>, line: Seq<char>, more: Seq<Seq<char>>)
    ensures
        read_lines(lines) is Parsed && line_model(line) == LineModel::Skip ==> read_lines(
            lines.push(line),
        ) == read_lines(lines),
        read_lines(lines) is Parsed && line_model(line) == LineModel::BadFormat ==> read_lines(
            lines.push(line),
        ) == ConfigOutcome::InvalidFormat(lines.len() + 1),
        read_lines(lines) is Parsed && line_model(line) is BadNumber ==> read_lines(lines.push(line))
            == ConfigOutcome::InvalidNumber(lines.len() + 1, line_model(line)->BadNumber_0),
        !(read_lines(lines) is Parsed) ==> read_lines(lines + more) == read_lines(lines),
{
    lemma_reading_goes_line_by_line(lines, line);
    if !(read_lines(lines) is Parsed) {
        assert((lines + more).take(lines.len() as int) =~= lines);
        lemma_stop_persists(lines + more, lines.len() as int);
    }
}

pub open spec fn line_views(lines: Seq<String>) -> Seq<Seq<char>> {
    lines.map_values(|l: String| l@)
}

/// A line that cannot be read.
#[derive(Debug)]
pub enum ConfigError {
    /// `Crash: Invalid format on line {line}`
    InvalidFormat { line: usize },
    /// `Crash: Invalid number on line {line} for key {key}`
    InvalidNumber { line: usize, key: String },
}

pub open spec fn result_outcome(r: Result<RawConfig, ConfigError>) -> ConfigOutcome {
    match r {
        Ok(c) => ConfigOutcome::Parsed(c@),
        Err(ConfigError::InvalidFormat { line }) => ConfigOutcome::InvalidFormat(line as nat),
        Err(ConfigError::InvalidNumber { line, key }) => ConfigOutcome::InvalidNumber(
            line as nat,
            key@,
        ),
    }
}

/// What a key means, with the load text of a table row.
pub enum KeyClass {
    AcMax(String),
    AcTurbo(String),
    AcEpp(String),
    AcCooling,
    DcMaxCap,
    DcMax(String),
    DcEpp(String),
    DcCooling,
    Unknown,
    Unsliceable,
}

impl View for KeyClass {
    type V = KeyMeaning;

    open spec fn view(&self) -> KeyMeaning {
        match self {
            KeyClass::AcMax(t) => KeyMeaning::AcMax(t@),
            KeyClass::AcTurbo(t) => KeyMeaning::AcTurbo(t@),
            KeyClass::AcEpp(t) => KeyMeaning::AcEpp(t@),
            KeyClass::AcCooling => KeyMeaning::AcCooling,
            KeyClass::DcMaxCap => KeyMeaning::DcMaxCap,
            KeyClass::DcMax(t) => KeyMeaning::DcMax(t@),
            KeyClass::DcEpp(t) => KeyMeaning::DcEpp(t@),
            KeyClass::DcCooling => KeyMeaning::DcCooling,
            KeyClass::Unknown => KeyMeaning::Unknown,
            KeyClass::Unsliceable => KeyMeaning::Unsliceable,
        }
    }
}

fn middle_text(k: &str, n: usize) -> (r: String)
    requires
        3 + n <= k@.len(),
    ensures
        r@ == middle(k@, n as int),
{
    let len = k.unicode_len();
    String::from_str(k.substring_char(3, len - n))
}

/// Classifies a trimmed key.
pub fn classify_key(k: &str) -> (r: KeyClass)
    ensures
        r@ == key_meaning(k@),
{
    let ac: [char; 3] = ['a', 'c', '_'];
    let dc: [char; 3] = ['d', 'c', '_'];
    let max: [char; 4] = ['_', 'm', 'a', 'x'];
    let turbo: [char; 6] = ['_', 't', 'u', 'r', 'b', 'o'];
    let epp: [char; 4] = ['_', 'e', 'p', 'p'];
    let ac_cooling: [char; 20] = [
        'a', 'c', '_', 'c', 'o', 'o', 'l', 'i', 'n', 'g', '_', 't', 'h', 'r', 'e', 's', 'h', 'o', 'l', 'd',
    ];
    let dc_cooling: [char; 20] = [
        'd', 'c', '_', 'c', 'o', 'o', 'l', 'i', 'n', 'g', '_', 't', 'h', 'r', 'e', 's', 'h', 'o', 'l', 'd',
    ];
    let dc_cap: [char; 10] = ['d', 'c', '_', 'm', 'a', 'x', '_', 'c', 'a', 'p'];
    assert(ac@ =~= ac_prefix());
    assert(dc@ =~= dc_prefix());
    assert(max@ =~= max_suffix());
    assert(turbo@ =~= turbo_suffix());
    assert(epp@ =~= epp_suffix());
    assert(ac_cooling@ =~= ac_cooling_key());
    assert(dc_cooling@ =~= dc_cooling_key());
    assert(dc_cap@ =~= dc_max_cap_key());
    let len = k.unicode_len();
    let is_ac = has_prefix(k, &ac);
    let is_dc = has_prefix(k, &dc);
    if is_ac && has_suffix(k, &max) {
        if len < 7 { KeyClass::Unsliceable } else { KeyClass::AcMax(middle_text(k, 4)) }
    } else if is_ac && has_suffix(k, &turbo) {
        if len < 9 { KeyClass::Unsliceable } else { KeyClass::AcTurbo(middle_text(k, 6)) }
    } else if is_ac && has_suffix(k, &epp) {
        if len < 7 { KeyClass::Unsliceable } else { KeyClass::AcEpp(middle_text(k, 4)) }
    } else if is_exactly(k, &ac_cooling) {
        KeyClass::AcCooling
    } else if is_exactly(k, &dc_cap) {
        KeyClass::DcMaxCap
    } else if is_dc && has_suffix(k, &max) {
        if len < 7 { KeyClass::Unsliceable } else { KeyClass::DcMax(middle_text(k, 4)) }
    } else if is_dc && has_suffix(k, &epp) {
        if len < 7 { KeyClass::Unsliceable } else { KeyClass::DcEpp(middle_text(k, 4)) }
    } else if is_exactly(k, &dc_cooling) {
        KeyClass::DcCooling
    } else {
        KeyClass::Unknown
    }
}

/// What one line of the file says, with owned texts.
pub enum LineParse {
    Skip,
    Pair(String, u32),
    BadFormat,
    BadNumber(String),
}

impl View for LineParse {
    type V = LineModel;

    open spec fn view(&self) -> LineModel {
        match self {
            LineParse::Skip => LineModel::Skip,
            LineParse::Pair(k, v) => LineModel::Pair(k@, *v),
            LineParse::BadFormat => LineModel::BadFormat,
            LineParse::BadNumber(k) => LineModel::BadNumber(k@),
        }
    }
}

/// The position of the only `=` of `line`, if it has exactly one.
fn find_separator(line: &str) -> (r: Option<usize>)
    ensures
        match r {
            Some(p) => sole_separator(line@, p as int),
            None => !exists|p: int| sole_separator(line@, p),
        },
{
    let n = line.unicode_len();
    let mut first: Option<usize> = None;
    let mut i: usize = 0;
    while i < n
        invariant
            n == line@.len(),
            i <= n,
            match first {
                Some(p) => p < i && line@[p as int] == '=' && forall|j: int|
                    0 <= j < i && line@[j] == '=' ==> j == p,
                None => forall|j: int| 0 <= j < i ==> line@[j] != '=',
            },
        decreases n - i,
    {
        if line.get_char(i) == '=' {
            match first {
                Some(p) => {
                    assert(forall|q: int| sole_separator(line@, q) ==> q == p && q == i);
                    return None;
                },
                None => {
                    first = Some(i);
                },
            }
        }
        i = i + 1;
    }
    if first.is_none() {
        assert forall|q: int| !sole_separator(line@, q) by {
            if 0 <= q < n {
                assert(line@[q] != '=');
            }
        }
    }
    first
}

/// Reads one line of the file.
pub fn parse_line(line: &str) -> (r: LineParse)
    ensures
        r@ == line_model(line@),
{
    let t = trim_str(line);
    if t.unicode_len() == 0 || (line.unicode_len() > 0 && line.get_char(0) == '#') {
        return LineParse::Skip;
    }
    match find_separator(line) {
        None => LineParse::BadFormat,
        Some(p) => {
            let n = line.unicode_len();
            let key = trim_str(line.substring_char(0, p));
            let text = trim_str(line.substring_char(p + 1, n));
            proof {
                let q = choose|q: int| sole_separator(line@, q);
                assert(sole_separator(line@, q));
                assert(q == p);
                assert(line@.take(p as int) =~= line@.subrange(0, p as int));
                assert(line@.skip(p + 1) =~= line@.subrange(p + 1, n as int));
            }
            match parse_u32_str(text) {
                Some(v) => LineParse::Pair(String::from_str(key), v),
                None => LineParse::BadNumber(String::from_str(key)),
            }
        },
    }
}

fn push_entry(t: &mut Vec<Entry>, threshold: String, value: u32)
    ensures
        table_view(final(t)@) == table_view(old(t)@).push((threshold@, value)),
{
    t.push(Entry { threshold, value });
    assert(table_view(t@) =~= table_view(old(t)@).push((threshold@, value)));
}

/// Gives the key of class `c` the value `v`.
fn apply_class(cfg: &mut RawConfig, c: KeyClass, v: u32)
    requires
        !(c@ is Unsliceable),
    ensures
        final(cfg)@ == record(old(cfg)@, c@, v),
{
    match c {
        KeyClass::AcMax(t) => push_entry(&mut cfg.ac_max, t, v),
        KeyClass::AcTurbo(t) => push_entry(&mut cfg.ac_turbo, t, v),
        KeyClass::AcEpp(t) => push_entry(&mut cfg.ac_epp, t, v),
        KeyClass::AcCooling => {
            cfg.ac_cooling = v;
        },
        KeyClass::DcMaxCap => {
            cfg.dc_max_cap = v;
        },
        KeyClass::DcMax(t) => push_entry(&mut cfg.dc_max, t, v),
        KeyClass::DcEpp(t) => push_entry(&mut cfg.dc_epp, t, v),
        KeyClass::DcCooling => {
            cfg.dc_cooling = v;
        },
        _ => {},
    }
}

/// Once reading has stopped at a line, later lines change nothing.
proof fn lemma_stop_persists(lines: Seq<Seq<char>>, i: int)
    requires
        0 <= i <= lines.len(),
        !(read_lines(lines.take(i)) is Parsed),
    ensures
        read_lines(lines) == read_lines(lines.take(i)),
    decreases lines.len(),
{
    if i < lines.len() {
        assert(lines.drop_last().take(i) =~= lines.take(i));
        lemma_stop_persists(lines.drop_last(), i);
    } else {
        assert(lines.take(i) =~= lines);
    }
}

enum Scan {
    Done(RawConfig),
    Failed(ConfigError),
    Stuck(usize),
}

spec fn scan_outcome(s: Scan) -> ConfigOutcome {
    match s {
        Scan::Done(c) => ConfigOutcome::Parsed(c@),
        Scan::Failed(e) => result_outcome(Err(e)),
        Scan::Stuck(n) => ConfigOutcome::Unsliceable(n as nat),
    }
}

fn scan(lines: &Vec<String>) -> (r: Scan)
    ensures
        scan_outcome(r) == read_lines(line_views(lines@)),
{
    let ghost all = line_views(lines@);
    let mut cfg = RawConfig {
        ac_max: Vec::new(),
        ac_turbo: Vec::new(),
        ac_epp: Vec::new(),
        ac_cooling: 45,
        dc_max_cap: 70,
        dc_max: Vec::new(),
        dc_epp: Vec::new(),
        dc_cooling: 60,
    };
    assert(table_view(Seq::<Entry>::empty()) =~= Seq::empty());
    assert(cfg@ == initial_model());
    assert(all.take(0) =~= Seq::<Seq<char>>::empty());
    let mut i: usize = 0;
    while i < lines.len()
        invariant
            all == line_views(lines@),
            i <= lines.len(),
            read_lines(all.take(i as int)) == ConfigOutcome::Parsed(cfg@),
        decreases lines.len() - i,
    {
        let line = lines[i].as_str();
        let ghost prefix = all.take(i + 1);
        assert(prefix.drop_last() =~= all.take(i as int));
        assert(prefix.last() == line@);
        let number = i + 1;
        match parse_line(line) {
            LineParse::Skip => {},
            LineParse::BadFormat => {
                proof {
                    lemma_stop_persists(all, i + 1);
                    assert(all.take(lines.len() as int) =~= all);
                }
                return Scan::Failed(ConfigError::InvalidFormat { line: number });
            },
            LineParse::BadNumber(key) => {
                proof {
                    lemma_stop_persists(all, i + 1);
                }
                return Scan::Failed(ConfigError::InvalidNumber { line: number, key });
            },
            LineParse::Pair(key, v) => {
                let c = classify_key(key.as_str());
                if let KeyClass::Unsliceable = c {
                    proof {
                        lemma_stop_persists(all, i + 1);
                    }
                    return Scan::Stuck(number);
                }
                apply_class(&mut cfg, c, v);
            },
        }
        i = i + 1;
    }
    assert(all.take(lines.len() as int) =~= all);
    Scan::Done(cfg)
}

/// Reads the configuration from the lines of the file, in order.
///
/// Every line the file holds is read until one cannot be: a line is
/// skipped when it is blank or begins with `#`, refused when it has no `=`
/// or more than one, or no `u32` after it, and otherwise gives its key the
/// value; keys that name nothing are ignored.
pub fn read_config(lines: &Vec<String>) -> (r: Result<RawConfig, ConfigError>)
    requires
        !(read_lines(line_views(lines@)) is Unsliceable),
    ensures
        result_outcome(r) == read_lines(line_views(lines@)),
{
    match scan(lines) {
        Scan::Done(c) => Ok(c),
        Scan::Failed(e) => Err(e),
        Scan::Stuck(_) => {
            proof {
                assert(false);
            }
            Err(ConfigError::InvalidFormat { line: 0 })
        },
    }
}

/// The number of the line at which reading stops on a key whose prefix
/// and suffix overlap, if reading stops there.
pub fn unsliceable_line(lines: &Vec<String>) -> (r: Option<usize>)
    ensures
        match read_lines(line_views(lines@)) {
            ConfigOutcome::Unsliceable(n) => r == Some(n as usize),
            _ => r is None,
        },
{
    match scan(lines) {
        Scan::Stuck(n) => Some(n),
        _ => None,
    }
}

/// The text of the configuration file written when there is none.
pub open spec fn default_text() -> Seq<char> {
    "ac_15_max=80
ac_20_max=100
ac_30_max=100
ac_40_max=100
ac_50_max=100
ac_60_max=100
ac_70_max=100
ac_80_max=100
ac_90_max=100
ac_100_max=100
ac_15_turbo=0
ac_50_turbo=0
ac_100_turbo=2
ac_1_epp=100
ac_5_epp=90
ac_10_epp=80
ac_15_epp=70
ac_20_epp=60
ac_40_epp=50
ac_60_epp=33
ac_80_epp=20
ac_100_epp=0
ac_cooling_threshold=45
dc_max_cap=70
dc_15_max=50
dc_40_max=60
dc_60_max=70
dc_100_max=70
dc_1_epp=100
dc_15_epp=90
dc_40_epp=80
dc_60_epp=70
dc_100_epp=60
dc_cooling_threshold=60"@
}

/// The configuration file written when there is none.
pub fn default_content() -> (r: &'static str)
    ensures
        r@ == default_text(),
{
    "ac_15_max=80
ac_20_max=100
ac_30_max=100
ac_40_max=100
ac_50_max=100
ac_60_max=100
ac_70_max=100
ac_80_max=100
ac_90_max=100
ac_100_max=100
ac_15_turbo=0
ac_50_turbo=0
ac_100_turbo=2
ac_1_epp=100
ac_5_epp=90
ac_10_epp=80
ac_15_epp=70
ac_20_epp=60
ac_40_epp=50
ac_60_epp=33
ac_80_epp=20
ac_100_epp=0
ac_cooling_threshold=45
dc_max_cap=70
dc_15_max=50
dc_40_max=60
dc_60_max=70
dc_100_max=70
dc_1_epp=100
dc_15_epp=90
dc_40_epp=80
dc_60_epp=70
dc_100_epp=60
dc_cooling_threshold=60"
}

} // verus!
