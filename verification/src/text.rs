//! Character-level helpers: whitespace trimming, decimal numbers, UTF-16.

use vstd::prelude::*;

verus! {

/// Unicode `White_Space`, the set that `char::is_whitespace` and
/// `str::trim` use.
pub open spec fn is_white_space(c: char) -> bool {
    let n = c as u32;
    ||| 0x09 <= n <= 0x0d
    ||| n == 0x20
    ||| n == 0x85
    ||| n == 0xa0
    ||| n == 0x1680
    ||| 0x2000 <= n <= 0x200a
    ||| n == 0x2028
    ||| n == 0x2029
    ||| n == 0x202f
    ||| n == 0x205f
    ||| n == 0x3000
}

/// `s` without the characters that `drop` holds of at its front.
pub open spec fn strip_front(s: Seq<char>, drop: spec_fn(char) -> bool) -> Seq<char>
    decreases s.len(),
{
    if s.len() > 0 && drop(s[0]) {
        strip_front(s.drop_first(), drop)
    } else {
        s
    }
}

/// `s` without the characters that `drop` holds of at its back.
pub open spec fn strip_back(s: Seq<char>, drop: spec_fn(char) -> bool) -> Seq<char>
    decreases s.len(),
{
    if s.len() > 0 && drop(s.last()) {
        strip_back(s.drop_last(), drop)
    } else {
        s
    }
}

/// `s` without the characters that `drop` holds of at either end.
pub open spec fn strip(s: Seq<char>, drop: spec_fn(char) -> bool) -> Seq<char> {
    strip_back(strip_front(s, drop), drop)
}

/// The characters that `str::trim` removes.
pub open spec fn white_space_pred() -> spec_fn(char) -> bool {
    |c: char| is_white_space(c)
}

/// The character that `str::trim_matches('\0')` removes.
pub open spec fn nul_pred() -> spec_fn(char) -> bool {
    |c: char| c == '\0'
}

/// What `str::trim` leaves of `s`.
pub open spec fn trim(s: Seq<char>) -> Seq<char> {
    strip(s, white_space_pred())
}

/// What `str::trim_matches('\0')` leaves of `s`.
pub open spec fn trim_nul(s: Seq<char>) -> Seq<char> {
    strip(s, nul_pred())
}

pub fn is_white_space_char(c: char) -> (r: bool)
    ensures
        r == is_white_space(c),
{
    let n = c as u32;
    (0x09 <= n && n <= 0x0d) || n == 0x20 || n == 0x85 || n == 0xa0 || n == 0x1680 || (0x2000
        <= n && n <= 0x200a) || n == 0x2028 || n == 0x2029 || n == 0x202f || n == 0x205f || n
        == 0x3000
}

proof fn lemma_strip_front_step(s: Seq<char>, i: int, drop: spec_fn(char) -> bool)
    requires
        0 <= i < s.len(),
        drop(s[i]),
    ensures
        strip_front(s.subrange(i, s.len() as int), drop) == strip_front(
            s.subrange(i + 1, s.len() as int),
            drop,
        ),
{
    assert(s.subrange(i, s.len() as int).drop_first() =~= s.subrange(i + 1, s.len() as int));
}

proof fn lemma_strip_back_step(s: Seq<char>, i: int, j: int, drop: spec_fn(char) -> bool)
    requires
        0 <= i < j <= s.len(),
        drop(s[j - 1]),
    ensures
        strip_back(s.subrange(i, j), drop) == strip_back(s.subrange(i, j - 1), drop),
{
    assert(s.subrange(i, j).drop_last() =~= s.subrange(i, j - 1));
}

fn is_dropped(c: char, nul: bool) -> (r: bool)
    ensures
        r == (if nul { nul_pred() } else { white_space_pred() })(c),
{
    if nul {
        c == '\0'
    } else {
        is_white_space_char(c)
    }
}

/// The bounds, counted in characters, of what `strip` leaves of `s`.
fn strip_bounds(s: &str, nul: bool) -> (r: (usize, usize))
    ensures
        r.0 <= r.1 <= s@.len(),
        nul ==> s@.subrange(r.0 as int, r.1 as int) == trim_nul(s@),
        !nul ==> s@.subrange(r.0 as int, r.1 as int) == trim(s@),
{
    let ghost drop: spec_fn(char) -> bool = if nul { nul_pred() } else { white_space_pred() };
    let n = s.unicode_len();
    let mut i: usize = 0;
    assert(s@.subrange(0, n as int) =~= s@);
    while i < n && is_dropped(s.get_char(i), nul)
        invariant
            n == s@.len(),
            i <= n,
            strip_front(s@, drop) == strip_front(s@.subrange(i as int, n as int), drop),
            drop == (if nul { nul_pred() } else { white_space_pred() }),
        decreases n - i,
    {
        proof {
            lemma_strip_front_step(s@, i as int, drop);
        }
        i = i + 1;
    }
    let mut j: usize = n;
    assert(strip_front(s@, drop) == s@.subrange(i as int, n as int));
    assert(s@.subrange(i as int, n as int) == s@.subrange(i as int, j as int));
    while j > i && is_dropped(s.get_char(j - 1), nul)
        invariant
            n == s@.len(),
            i <= j <= n,
            strip_front(s@, drop) == s@.subrange(i as int, n as int),
            strip_back(s@.subrange(i as int, n as int), drop) == strip_back(
                s@.subrange(i as int, j as int),
                drop,
            ),
            drop == (if nul { nul_pred() } else { white_space_pred() }),
        decreases j,
    {
        proof {
            lemma_strip_back_step(s@, i as int, j as int, drop);
        }
        j = j - 1;
    }
    assert(strip_back(s@.subrange(i as int, j as int), drop) == s@.subrange(i as int, j as int));
    (i, j)
}

/// What `strip` leaves is the middle of `s`: every character cut from
/// either end is one `drop` holds of, and the middle neither begins nor ends
/// with such a character.
pub open spec fn is_stripped_middle(
    s: Seq<char>,
    drop: spec_fn(char) -> bool,
    r: Seq<char>,
) -> bool {
    exists|i: int, j: int|
        0 <= i <= j <= s.len() && r == s.subrange(i, j) && (forall|k: int|
            0 <= k < i ==> drop(#[trigger] s[k])) && (forall|k: int|
            j <= k < s.len() ==> drop(#[trigger] s[k])) && (i < j ==> !drop(s[i]) && !drop(
            s[j - 1],
        ))
}

proof fn lemma_strip_front_cut(s: Seq<char>, drop: spec_fn(char) -> bool) -> (i: int)
    ensures
        0 <= i <= s.len(),
        strip_front(s, drop) == s.subrange(i, s.len() as int),
        forall|k: int| 0 <= k < i ==> drop(#[trigger] s[k]),
        i < s.len() ==> !drop(s[i]),
    decreases s.len(),
{
    if s.len() > 0 && drop(s[0]) {
        let i0 = lemma_strip_front_cut(s.drop_first(), drop);
        assert(s.drop_first().subrange(i0, s.len() - 1) =~= s.subrange(i0 + 1, s.len() as int));
        assert forall|k: int| 0 <= k < i0 + 1 implies drop(#[trigger] s[k]) by {
            if k > 0 {
                assert(s[k] == s.drop_first()[k - 1]);
            }
        }
        i0 + 1
    } else {
        assert(s.subrange(0, s.len() as int) =~= s);
        0
    }
}

proof fn lemma_strip_back_cut(s: Seq<char>, drop: spec_fn(char) -> bool) -> (j: int)
    ensures
        0 <= j <= s.len(),
        strip_back(s, drop) == s.subrange(0, j),
        forall|k: int| j <= k < s.len() ==> drop(#[trigger] s[k]),
        j > 0 ==> !drop(s[j - 1]),
    decreases s.len(),
{
    if s.len() > 0 && drop(s.last()) {
        let j0 = lemma_strip_back_cut(s.drop_last(), drop);
        assert(s.drop_last().subrange(0, j0) =~= s.subrange(0, j0));
        assert forall|k: int| j0 <= k < s.len() implies drop(#[trigger] s[k]) by {
            if k < s.len() - 1 {
                assert(s[k] == s.drop_last()[k]);
            }
        }
        j0
    } else {
        assert(s.subrange(0, s.len() as int) =~= s);
        s.len() as int
    }
}

/// `strip` cuts only characters `drop` holds of, from the two ends, and
/// leaves a middle that begins and ends with a character it keeps.
pub proof fn lemma_strip_cuts_only_the_ends(s: Seq<char>, drop: spec_fn(char) -> bool)
    ensures
        is_stripped_middle(s, drop, strip(s, drop)),
{
    let i = lemma_strip_front_cut(s, drop);
    let f = s.subrange(i, s.len() as int);
    let j0 = lemma_strip_back_cut(f, drop);
    let j = i + j0;
    assert(f.subrange(0, j0) =~= s.subrange(i, j));
    assert forall|k: int| j <= k < s.len() implies drop(#[trigger] s[k]) by {
        assert(s[k] == f[k - i]);
    }
    if i < j {
        assert(s[j - 1] == f[j0 - 1]);
    }
}

/// `str::trim`: `s` without leading and trailing whitespace.
pub fn trim_str(s: &str) -> (r: &str)
    ensures
        r@ == trim(s@),
        is_stripped_middle(s@, |c: char| is_white_space(c), r@),
{
    proof {
        lemma_strip_cuts_only_the_ends(s@, white_space_pred());
    }
    let (i, j) = strip_bounds(s, false);
    s.substring_char(i, j)
}

/// `str::trim_matches('\0')`: `s` without leading and trailing NUL characters.
pub fn trim_nul_str(s: &str) -> (r: &str)
    ensures
        r@ == trim_nul(s@),
        is_stripped_middle(s@, |c: char| c == '\0', r@),
{
    proof {
        lemma_strip_cuts_only_the_ends(s@, nul_pred());
    }
    let (i, j) = strip_bounds(s, true);
    s.substring_char(i, j)
}

/// An ASCII decimal digit.
pub open spec fn is_digit(c: char) -> bool {
    0x30 <= (c as u32) <= 0x39
}

pub open spec fn digit_value(c: char) -> nat {
    ((c as u32) - 0x30) as nat
}

pub open spec fn all_digits(d: Seq<char>) -> bool {
    forall|i: int| 0 <= i < d.len() ==> is_digit(#[trigger] d[i])
}

/// The number that the decimal digits `d` write.
pub open spec fn decimal_value(d: Seq<char>) -> nat
    decreases d.len(),
{
    if d.len() == 0 {
        0
    } else {
        decimal_value(d.drop_last()) * 10 + digit_value(d.last())
    }
}

/// The digits that `u32::from_str` reads: the text after at most one `+`.
pub open spec fn unsigned_digits(s: Seq<char>) -> Seq<char> {
    if s.len() > 0 && s[0] == '+' {
        s.drop_first()
    } else {
        s
    }
}

/// What `s.parse::<u32>()` gives: the value of a non-empty run of decimal
/// digits after at most one `+`, when it fits in 32 bits; nothing otherwise.
pub open spec fn parse_u32(s: Seq<char>) -> Option<u32> {
    let d = unsigned_digits(s);
    if d.len() > 0 && all_digits(d) && decimal_value(d) <= u32::MAX {
        Some(decimal_value(d) as u32)
    } else {
        None
    }
}

proof fn lemma_decimal_prefix(d: Seq<char>, k: int)
    requires
        0 <= k <= d.len(),
    ensures
        decimal_value(d.take(k)) <= decimal_value(d),
    decreases d.len(),
{
    if k < d.len() {
        assert(d.drop_last().take(k) =~= d.take(k));
        lemma_decimal_prefix(d.drop_last(), k);
    } else {
        assert(d.take(k) =~= d);
    }
}

/// How `u32` text reads: no text, and a lone `+`, are no number; one digit
/// is its value; a digit after a number multiplies it by ten and adds
/// itself, no number when that exceeds `u32::MAX`; one leading `+` changes
/// nothing; any other character is no number.
pub proof fn lemma_how_numbers_read(d: Seq<char>, c: char)
    ensures
        parse_u32(Seq::empty()) is None,
        parse_u32(seq!['+']) is None,
        is_digit(c) ==> parse_u32(seq![c]) == Some(((c as u32) - 0x30) as u32),
        all_digits(d) && d.len() > 0 && is_digit(c) ==> parse_u32(d.push(c)) == match parse_u32(d) {
            Some(v) => if v as int * 10 + ((c as u32) - 0x30) <= u32::MAX {
                Some((v as int * 10 + ((c as u32) - 0x30)) as u32)
            } else {
                None
            },
            None => None,
        },
        d.len() > 0 && d[0] != '+' ==> parse_u32(seq!['+'] + d) == parse_u32(d),
        (exists|i: int| 0 <= i < d.len() && !is_digit(#[trigger] d[i]) && !(i == 0 && d[0] == '+'))
            ==> parse_u32(d) is None,
{
    assert(unsigned_digits(seq!['+']) =~= Seq::<char>::empty());
    let one = seq![c];
    assert(one.drop_last() =~= Seq::<char>::empty());
    if all_digits(d) && d.len() > 0 && is_digit(c) {
        let e = d.push(c);
        assert(e[0] != '+');
        assert(d[0] != '+');
        assert(e.drop_last() =~= d);
        assert forall|i: int| 0 <= i < e.len() implies is_digit(#[trigger] e[i]) by {
            if i < d.len() {
                assert(e[i] == d[i]);
            }
        }
        if parse_u32(d) is None {
            assert(decimal_value(d) > u32::MAX);
        }
    }
    if d.len() > 0 && d[0] != '+' {
        assert((seq!['+'] + d).drop_first() =~= d);
    }
    if exists|i: int| 0 <= i < d.len() && !is_digit(#[trigger] d[i]) && !(i == 0 && d[0] == '+') {
        let i = choose|i: int| 0 <= i < d.len() && !is_digit(#[trigger] d[i]) && !(i == 0 && d[0]
            == '+');
        if d[0] == '+' {
            assert(unsigned_digits(d)[i - 1] == d[i]);
        } else {
            assert(unsigned_digits(d)[i] == d[i]);
        }
    }
}

/// `str::parse::<u32>`.
pub fn parse_u32_str(s: &str) -> (r: Option<u32>)
    ensures
        r == parse_u32(s@),
{
    let n = s.unicode_len();
    let start: usize = if n > 0 && s.get_char(0) == '+' {
        1
    } else {
        0
    };
    let ghost d = unsigned_digits(s@);
    assert(d =~= s@.subrange(start as int, n as int));
    if start == n {
        return None;
    }
    let mut acc: u64 = 0;
    let mut i: usize = start;
    while i < n
        invariant
            n == s@.len(),
            start <= i <= n,
            start < n,
            d == s@.subrange(start as int, n as int),
            d == unsigned_digits(s@),
            all_digits(d.take(i - start)),
            acc == decimal_value(d.take(i - start)),
            acc <= u32::MAX,
        decreases n - i,
    {
        let c = s.get_char(i);
        let k: usize = i - start;
        assert(d[k as int] == c);
        if !((c as u32) >= 0x30 && (c as u32) <= 0x39) {
            assert(!is_digit(d[k as int]));
            return None;
        }
        let next: u64 = acc * 10 + ((c as u32) - 0x30) as u64;
        assert(d.take(k + 1).drop_last() =~= d.take(k as int));
        assert(d.take(k + 1).last() == c);
        assert(all_digits(d.take(k + 1)));
        assert(decimal_value(d.take(k + 1)) == next);
        if next > 0xffff_ffff {
            proof {
                lemma_decimal_prefix(d, k + 1);
            }
            return None;
        }
        acc = next;
        i = i + 1;
    }
    assert(d.take(n - start) =~= d);
    Some(acc as u32)
}

/// `s` begins with `p`.
pub open spec fn starts_with(s: Seq<char>, p: Seq<char>) -> bool {
    p.len() <= s.len() && s.take(p.len() as int) == p
}

/// `s` ends with `p`.
pub open spec fn ends_with(s: Seq<char>, p: Seq<char>) -> bool {
    p.len() <= s.len() && s.skip(s.len() - p.len()) == p
}

/// `k` begins with `p`.
pub fn has_prefix(k: &str, p: &[char]) -> (r: bool)
    ensures
        r == starts_with(k@, p@),
        r <==> p@.len() <= k@.len() && forall|i: int| 0 <= i < p@.len() ==> k@[i] == p@[i],
{
    let n = k.unicode_len();
    let m = p.len();
    if m > n {
        return false;
    }
    let mut i: usize = 0;
    while i < m
        invariant
            n == k@.len(),
            m == p@.len(),
            m <= n,
            i <= m,
            forall|j: int| 0 <= j < i ==> k@[j] == p@[j],
        decreases m - i,
    {
        if k.get_char(i) != p[i] {
            assert(k@.take(m as int)[i as int] != p@[i as int]);
            return false;
        }
        i = i + 1;
    }
    assert(k@.take(m as int) =~= p@);
    true
}

/// `k` ends with `p`.
pub fn has_suffix(k: &str, p: &[char]) -> (r: bool)
    ensures
        r == ends_with(k@, p@),
        r <==> p@.len() <= k@.len() && forall|i: int|
            0 <= i < p@.len() ==> k@[k@.len() - p@.len() + i] == p@[i],
{
    let n = k.unicode_len();
    let m = p.len();
    if m > n {
        return false;
    }
    let mut i: usize = 0;
    while i < m
        invariant
            n == k@.len(),
            m == p@.len(),
            m <= n,
            i <= m,
            forall|j: int| 0 <= j < i ==> k@[n - m + j] == p@[j],
        decreases m - i,
    {
        if k.get_char(n - m + i) != p[i] {
            assert(k@.skip(n - m)[i as int] != p@[i as int]);
            return false;
        }
        i = i + 1;
    }
    assert(k@.skip(n - m) =~= p@);
    true
}

/// `k` is `p`.
pub fn is_exactly(k: &str, p: &[char]) -> (r: bool)
    ensures
        r == (k@ == p@),
{
    let b = k.unicode_len() == p.len() && has_prefix(k, p);
    proof {
        if k@.len() == p@.len() {
            assert(k@ =~= k@.take(p@.len() as int));
        }
    }
    b
}

/// The UTF-16 code units of one character.
pub open spec fn utf16_of_char(c: char) -> Seq<u16> {
    let n = c as u32;
    if n < 0x10000 {
        seq![n as u16]
    } else {
        let m = n - 0x10000;
        seq![(0xd800 + m / 0x400) as u16, (0xdc00 + m % 0x400) as u16]
    }
}

/// `str::encode_utf16`: the UTF-16 code units of `s`.
pub open spec fn encode_utf16(s: Seq<char>) -> Seq<u16>
    decreases s.len(),
{
    if s.len() == 0 {
        Seq::empty()
    } else {
        encode_utf16(s.drop_last()) + utf16_of_char(s.last())
    }
}

pub open spec fn is_high_surrogate(u: u16) -> bool {
    0xd800 <= u <= 0xdbff
}

pub open spec fn is_low_surrogate(u: u16) -> bool {
    0xdc00 <= u <= 0xdfff
}

/// The character of a surrogate pair.
pub open spec fn pair_char(hi: u16, lo: u16) -> char {
    ((0x10000 + (hi - 0xd800) * 0x400 + (lo - 0xdc00)) as u32) as char
}

/// `String::from_utf16_lossy`: `u` decoded as UTF-16, each unpaired
/// surrogate giving U+FFFD.
pub open spec fn decode_utf16_lossy(u: Seq<u16>) -> Seq<char>
    decreases u.len(),
{
    if u.len() == 0 {
        Seq::empty()
    } else if u.len() >= 2 && is_high_surrogate(u[0]) && is_low_surrogate(u[1]) {
        seq![pair_char(u[0], u[1])] + decode_utf16_lossy(u.skip(2))
    } else if is_high_surrogate(u[0]) || is_low_surrogate(u[0]) {
        seq!['\u{fffd}'] + decode_utf16_lossy(u.skip(1))
    } else {
        seq![(u[0] as u32) as char] + decode_utf16_lossy(u.skip(1))
    }
}

/// `String::from_utf16_lossy` decodes UTF-16, putting U+FFFD for each
/// unpaired surrogate (its documentation: "replacing invalid data with the
/// replacement character"); the contract states that decoding.
#[verifier::external_body]
pub(crate) fn from_utf16_lossy(units: &[u16]) -> (r: String)
    ensures
        r@ == decode_utf16_lossy(units@),
{
    String::from_utf16_lossy(units)
}

/// What `str::to_lowercase` gives for a string: Unicode's lowercase mapping
/// of each character, with the rule for a final sigma.
pub uninterp spec fn lowercase(s: Seq<char>) -> Seq<char>;

/// `str::to_lowercase`: the contract names its result, a function of the
/// string alone; what that mapping is on given characters is not stated.
#[verifier::external_body]
pub(crate) fn to_lowercase(s: &str) -> (r: String)
    ensures
        r@ == lowercase(s@),
{
    s.to_lowercase()
}

/// `s.encode_utf16()`, collected.
pub fn encode_utf16_str(s: &str) -> (r: Vec<u16>)
    ensures
        r@ == encode_utf16(s@),
{
    let n = s.unicode_len();
    let mut out: Vec<u16> = Vec::new();
    let mut i: usize = 0;
    assert(s@.take(0) =~= Seq::<char>::empty());
    while i < n
        invariant
            n == s@.len(),
            i <= n,
            out@ == encode_utf16(s@.take(i as int)),
        decreases n - i,
    {
        let c = s.get_char(i);
        let v = c as u32;
        assert(s@.take(i + 1).drop_last() =~= s@.take(i as int));
        let ghost before = out@;
        if v < 0x10000 {
            out.push(v as u16);
        } else {
            let m = v - 0x10000;
            assert(m <= 0xfffff);
            out.push((0xd800 + m / 0x400) as u16);
            out.push((0xdc00 + m % 0x400) as u16);
        }
        assert(out@ =~= before + utf16_of_char(c));
        i = i + 1;
    }
    assert(s@.take(n as int) =~= s@);
    out
}

proof fn lemma_encode_front(s: Seq<char>)
    requires
        s.len() > 0,
    ensures
        encode_utf16(s) == utf16_of_char(s[0]) + encode_utf16(s.drop_first()),
    decreases s.len(),
{
    if s.len() == 1 {
        assert(s.drop_last() =~= Seq::<char>::empty());
        assert(s.drop_first() =~= Seq::<char>::empty());
        assert(encode_utf16(s.drop_first()) =~= Seq::<u16>::empty());
        assert(utf16_of_char(s[0]) + Seq::<u16>::empty() =~= utf16_of_char(s[0]));
    } else {
        lemma_encode_front(s.drop_last());
        assert(s.drop_last().drop_first() =~= s.drop_first().drop_last());
        assert(s.drop_first().last() == s.last());
        assert(s.drop_last()[0] == s[0]);
        assert((utf16_of_char(s[0]) + encode_utf16(s.drop_first().drop_last())) + utf16_of_char(
            s.last(),
        ) =~= utf16_of_char(s[0]) + (encode_utf16(s.drop_first().drop_last()) + utf16_of_char(
            s.last(),
        )));
    }
}

/// Decoding what `encode_utf16` wrote gives back the characters.
pub proof fn lemma_utf16_round_trip(s: Seq<char>)
    ensures
        decode_utf16_lossy(encode_utf16(s)) == s,
    decreases s.len(),
{
    if s.len() == 0 {
        assert(encode_utf16(s) =~= Seq::<u16>::empty());
        assert(decode_utf16_lossy(Seq::<u16>::empty()) =~= s);
    } else {
        lemma_encode_front(s);
        lemma_utf16_round_trip(s.drop_first());
        let c = s[0];
        let rest = encode_utf16(s.drop_first());
        let u = utf16_of_char(c) + rest;
        let n = c as u32;
        vstd::utf8::char_is_scalar(c);
        vstd::utf8::char_u32_cast(c, n);
        if n < 0x10000 {
            assert(u.skip(1) =~= rest);
            assert(u[0] == n as u16);
            assert(u[0] as u32 == n);
        } else {
            let m = n - 0x10000;
            assert(u.skip(2) =~= rest);
            assert(m / 0x400 * 0x400 + m % 0x400 == m);
            assert((0x10000 + (u[0] - 0xd800) * 0x400 + (u[1] - 0xdc00)) as u32 == n);
        }
        assert(seq![c] + s.drop_first() =~= s);
    }
}

} // verus!
