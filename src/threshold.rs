//! Size tokens such as `"500M"`, `"1gb"` or `"0.5G"`, and the byte thresholds
//! they stand for.
use vstd::prelude::*;
use vstd::string::*;
use crate::number::{
    is_unsigned_number, lemma_unsigned_number_last, number_times, number_times_floor, saturate,
};
use crate::units::{unit_size, SizeUnit, BYTES_PER_GB, BYTES_PER_MB};

verus! {

/// The threshold in megabytes that a token without a readable number stands for.
pub const DEFAULT_THRESHOLD_MB: u64 = 100;

/// The least size, in bytes, that a file must have to be listed, and the unit
/// in which sizes are shown.
#[derive(Clone, Copy, Debug, PartialEq, Eq, Structural)]
pub struct SizeThreshold {
    pub bytes: u64,
    pub unit: SizeUnit,
}

/// The threshold used when no size is given, or when the size cannot be read:
/// 100 MB, shown in MB.
pub open spec fn default_threshold() -> SizeThreshold {
    SizeThreshold { bytes: (100 * 1048576) as u64, unit: SizeUnit::MB }
}

/// `c` is the lower-case ASCII letter `l` written in either case.
pub open spec fn is_letter_ci(c: char, l: char) -> bool {
    c == l || (c as u32) + 32 == (l as u32)
}

/// The unit suffix at the end of a token: how many characters it takes and
/// which unit it names. Tried in the order `gb`, `g`, `mb`, `m`, in either
/// case; a token with none of them is a number of megabytes.
pub open spec fn token_suffix(s: Seq<char>) -> (nat, SizeUnit) {
    let n = s.len();
    if n >= 2 && is_letter_ci(s[n - 2], 'g') && is_letter_ci(s[n - 1], 'b') {
        (2, SizeUnit::GB)
    } else if n >= 1 && is_letter_ci(s[n - 1], 'g') {
        (1, SizeUnit::GB)
    } else if n >= 2 && is_letter_ci(s[n - 2], 'm') && is_letter_ci(s[n - 1], 'b') {
        (2, SizeUnit::MB)
    } else if n >= 1 && is_letter_ci(s[n - 1], 'm') {
        (1, SizeUnit::MB)
    } else {
        (0, SizeUnit::MB)
    }
}

/// The number part of a token: all but its unit suffix.
pub open spec fn token_number(s: Seq<char>) -> Seq<char> {
    s.take(s.len() - token_suffix(s).0)
}

/// How many megabytes one of `unit` is.
pub open spec fn unit_multiplier(unit: SizeUnit) -> nat {
    match unit {
        SizeUnit::MB => 1,
        SizeUnit::GB => 1024,
    }
}

/// `n` spells the lower-case word `w`, each letter in either case.
pub open spec fn spells_ci(n: Seq<char>, w: Seq<char>) -> bool {
    n.len() == w.len() && forall|i: int| 0 <= i < n.len() ==> is_letter_ci(#[trigger] n[i], w[i])
}

/// `n` names infinity: `inf` or `infinity`, in any case.
pub open spec fn is_infinity_word(n: Seq<char>) -> bool {
    spells_ci(n, seq!['i', 'n', 'f']) || spells_ci(n, seq!['i', 'n', 'f', 'i', 'n', 'i', 't', 'y'])
}

/// `n` is `nan`, "not a number", in any case.
pub open spec fn is_nan_word(n: Seq<char>) -> bool {
    spells_ci(n, seq!['n', 'a', 'n'])
}

/// `n` is a number without a sign: a decimal number with an optional
/// exponent, or one of the words for infinity and for "not a number".
pub open spec fn is_unsigned_value(n: Seq<char>) -> bool {
    is_unsigned_number(n) || is_infinity_word(n) || is_nan_word(n)
}

/// The bytes that the number `n`, without a sign, stands for at `k` bytes to
/// the unit: rounded down and held at the largest `u64`. Infinity stands for
/// the largest `u64`, "not a number" for no bytes.
pub open spec fn unsigned_bytes(n: Seq<char>, k: nat) -> u64 {
    if is_unsigned_number(n) {
        saturate(number_times_floor(n, k))
    } else if is_infinity_word(n) {
        u64::MAX
    } else {
        0
    }
}

/// `n` is a number without a sign after the sign `c`.
pub open spec fn is_signed_value(n: Seq<char>, c: char) -> bool {
    n.len() > 0 && n[0] == c && is_unsigned_value(n.drop_first())
}

/// `n` is a number, with or without a sign.
pub open spec fn is_number(n: Seq<char>) -> bool {
    is_unsigned_value(n) || is_signed_value(n, '+') || is_signed_value(n, '-')
}

/// The threshold a size token stands for: its number times the suffix's
/// multiplier is a count of megabytes, which times `1024 * 1024` and rounded
/// down (held at the largest `u64`) gives the bytes; a number below zero gives
/// no bytes at all. A token whose number part cannot be read stands for the
/// default of 100 MB, whatever its suffix.
pub open spec fn threshold_of(s: Seq<char>) -> SizeThreshold {
    let (cut, unit) = token_suffix(s);
    let number = token_number(s);
    let k = unit_multiplier(unit) * 1048576;
    if is_unsigned_value(number) {
        SizeThreshold { bytes: unsigned_bytes(number, k), unit }
    } else if is_signed_value(number, '+') {
        SizeThreshold { bytes: unsigned_bytes(number.drop_first(), k), unit }
    } else if is_signed_value(number, '-') {
        SizeThreshold { bytes: 0, unit }
    } else {
        default_threshold()
    }
}

/// The unit that a suffix a user may write names: none, `m` or `mb` for
/// megabytes, `g` or `gb` for gigabytes, each letter in either case.
pub open spec fn suffix_unit(suffix: Seq<char>) -> Option<SizeUnit> {
    if suffix.len() == 0 {
        Some(SizeUnit::MB)
    } else if suffix.len() == 1 && is_letter_ci(suffix[0], 'm') {
        Some(SizeUnit::MB)
    } else if suffix.len() == 1 && is_letter_ci(suffix[0], 'g') {
        Some(SizeUnit::GB)
    } else if suffix.len() == 2 && is_letter_ci(suffix[0], 'm') && is_letter_ci(suffix[1], 'b') {
        Some(SizeUnit::MB)
    } else if suffix.len() == 2 && is_letter_ci(suffix[0], 'g') && is_letter_ci(suffix[1], 'b') {
        Some(SizeUnit::GB)
    } else {
        None
    }
}

/// A number followed by one of the unit suffixes reads back as that number of
/// megabytes, times 1024 for gigabytes, shown in the suffix's unit.
pub proof fn lemma_size_token(number: Seq<char>, suffix: Seq<char>)
    requires
        is_unsigned_number(number),
        suffix_unit(suffix) is Some,
    ensures
        ({
            let unit = suffix_unit(suffix)->0;
            threshold_of(number + suffix) == (SizeThreshold {
                bytes: saturate(number_times_floor(number, unit_multiplier(unit) * 1048576)),
                unit,
            })
        }),
{
    let s = number + suffix;
    lemma_unsigned_number_last(number);
    let c = number.last();
    assert(s[number.len() - 1] == c);
    if suffix.len() == 1 {
        assert(s[s.len() - 1] == suffix[0]);
    } else if suffix.len() == 2 {
        assert(s[s.len() - 2] == suffix[0]);
        assert(s[s.len() - 1] == suffix[1]);
    }
    assert(token_suffix(s).0 == suffix.len());
    assert(token_number(s) =~= number);
}

/// A token whose number part cannot be read stands for 100 MB, shown in MB,
/// whichever suffix it carries.
pub proof fn lemma_unreadable_number(s: Seq<char>)
    requires
        !is_number(token_number(s)),
    ensures
        threshold_of(s) == default_threshold(),
        threshold_of(s).bytes == 100 * 1048576,
        threshold_of(s).unit == SizeUnit::MB,
{
}

fn is_letter(c: char, l: char) -> (r: bool)
    ensures
        r == is_letter_ci(c, l),
{
    c == l || (c as u32) + 32 == l as u32
}

/// Whether the first `end` characters of `s` spell the lower-case word `w`.
fn spells(s: &str, end: usize, w: &str) -> (r: bool)
    requires
        end <= s@.len(),
    ensures
        r == spells_ci(s@.take(end as int), w@),
{
    let ghost n = s@.take(end as int);
    if end != w.unicode_len() {
        return false;
    }
    let mut i: usize = 0;
    while i < end
        invariant
            i <= end,
            end <= s@.len(),
            end == w@.len(),
            n == s@.take(end as int),
            forall|j: int| 0 <= j < i ==> is_letter_ci(#[trigger] n[j], w@[j]),
        decreases end - i,
    {
        let c = s.get_char(i);
        proof {
            assert(n[i as int] == c);
        }
        if !is_letter(c, w.get_char(i)) {
            return false;
        }
        i = i + 1;
    }
    true
}

/// Reads the number without a sign in the first `end` characters of `s`, at
/// `k` bytes to the unit; `None` where they hold no such number.
fn unsigned_bytes_at(s: &str, end: usize, k: u64) -> (r: Option<u64>)
    requires
        end <= s@.len(),
        0 < k <= BYTES_PER_GB,
    ensures
        r == (if is_unsigned_value(s@.take(end as int)) {
            Some(unsigned_bytes(s@.take(end as int), k as nat))
        } else {
            None
        }),
{
    if let Some(bytes) = number_times(s, end, k) {
        return Some(bytes);
    }
    proof {
        reveal_strlit("inf");
        reveal_strlit("infinity");
        reveal_strlit("nan");
    }
    if spells(s, end, "inf") || spells(s, end, "infinity") {
        Some(u64::MAX)
    } else if spells(s, end, "nan") {
        Some(0)
    } else {
        None
    }
}

/// Reads a size token such as `"100"`, `"500M"`, `"50mb"`, `"2G"`,
/// `"0.5GB"` or `"1e3"` into a byte threshold and the unit it names. A number
/// may carry a sign; one below zero gives a threshold of no bytes. A token whose number
/// cannot be read gives 100 MB.
pub fn parse_size(size_str: &str) -> (r: SizeThreshold)
    ensures
        r == threshold_of(size_str@),
{
    let len = size_str.unicode_len();
    let ghost t = size_str@;
    let (cut, unit): (usize, SizeUnit) = if len >= 2 && is_letter(size_str.get_char(len - 2), 'g')
        && is_letter(size_str.get_char(len - 1), 'b') {
        (2, SizeUnit::GB)
    } else if len >= 1 && is_letter(size_str.get_char(len - 1), 'g') {
        (1, SizeUnit::GB)
    } else if len >= 2 && is_letter(size_str.get_char(len - 2), 'm') && is_letter(
        size_str.get_char(len - 1),
        'b',
    ) {
        (2, SizeUnit::MB)
    } else if len >= 1 && is_letter(size_str.get_char(len - 1), 'm') {
        (1, SizeUnit::MB)
    } else {
        (0, SizeUnit::MB)
    };
    assert(cut == token_suffix(t).0 && unit == token_suffix(t).1);
    let per_unit = unit_size(unit);
    assert(per_unit == unit_multiplier(unit) * 1048576);
    let end = len - cut;
    let ghost number = t.take(end as int);
    assert(number == token_number(t));
    if let Some(bytes) = unsigned_bytes_at(size_str, end, per_unit) {
        return SizeThreshold { bytes, unit };
    }
    if end > 0 {
        let sign = size_str.get_char(0);
        if sign == '+' || sign == '-' {
            let rest = size_str.substring_char(1, end);
            proof {
                assert(rest@.take((end - 1) as int) =~= number.drop_first());
            }
            if let Some(bytes) = unsigned_bytes_at(rest, end - 1, per_unit) {
                if sign == '+' {
                    return SizeThreshold { bytes, unit };
                } else {
                    return SizeThreshold { bytes: 0, unit };
                }
            }
        }
    }
    SizeThreshold { bytes: DEFAULT_THRESHOLD_MB * BYTES_PER_MB, unit: SizeUnit::MB }
}

} // verus!
