//! Numbers as they are written: counts, hexadecimal keys, and numerals that
//! stand for real values.
use vstd::prelude::*;
use vstd::slice::slice_subrange;
use vstd::string::*;
use crate::text::ascii;

verus! {

/// The byte `0`.
pub const CH_0: u8 = 48;

/// The byte `9`.
pub const CH_9: u8 = 57;

/// The byte `A`.
pub const CH_UPPER_A: u8 = 65;

/// The byte `F`.
pub const CH_UPPER_F: u8 = 70;

/// The byte `a`.
pub const CH_LOWER_A: u8 = 97;

/// The byte `f`.
pub const CH_LOWER_F: u8 = 102;

/// The byte `+`.
pub const CH_PLUS: u8 = 43;

/// The byte `-`.
pub const CH_MINUS: u8 = 45;

/// The byte `.`.
pub const CH_DOT: u8 = 46;

/// The byte `E`.
pub const CH_UPPER_E: u8 = 69;

/// The byte `e`.
pub const CH_LOWER_E: u8 = 101;

/// Whether `b` is a decimal digit.
pub open spec fn is_digit(b: u8) -> bool {
    CH_0 <= b <= CH_9
}

/// The value of a hexadecimal digit, if `b` is one.
pub open spec fn hex_digit(b: u8) -> Option<nat> {
    if CH_0 <= b <= CH_9 {
        Some((b - CH_0) as nat)
    } else if CH_LOWER_A <= b <= CH_LOWER_F {
        Some((b - CH_LOWER_A + 10) as nat)
    } else if CH_UPPER_A <= b <= CH_UPPER_F {
        Some((b - CH_UPPER_A + 10) as nat)
    } else {
        None
    }
}

/// Whether `s` holds decimal digits only.
pub open spec fn all_digits(s: Seq<u8>) -> bool {
    forall|i: int| 0 <= i < s.len() ==> is_digit(#[trigger] s[i])
}

/// Whether `s` holds hexadecimal digits only.
pub open spec fn all_hex_digits(s: Seq<u8>) -> bool {
    forall|i: int| 0 <= i < s.len() ==> hex_digit(#[trigger] s[i]) is Some
}

/// What a run of decimal digits denotes.
pub open spec fn decimal_value(s: Seq<u8>) -> nat
    decreases s.len(),
{
    if s.len() == 0 {
        0
    } else {
        10 * decimal_value(s.drop_last()) + (s.last() - CH_0) as nat
    }
}

/// What a run of hexadecimal digits denotes.
pub open spec fn hex_value(s: Seq<u8>) -> nat
    decreases s.len(),
{
    if s.len() == 0 {
        0
    } else {
        16 * hex_value(s.drop_last()) + match hex_digit(s.last()) {
            Some(d) => d,
            None => 0,
        }
    }
}

/// `s` without a leading plus sign.
pub open spec fn unsigned_part(s: Seq<u8>) -> Seq<u8> {
    if s.len() > 0 && s[0] == CH_PLUS {
        s.skip(1)
    } else {
        s
    }
}

/// A count is an optional plus sign and one or more decimal digits that
/// denote a positive value within `usize`.
pub open spec fn count_of(s: Seq<u8>) -> Option<usize> {
    let d = unsigned_part(s);
    if d.len() > 0 && all_digits(d) && 0 < decimal_value(d) <= usize::MAX {
        Some(decimal_value(d) as usize)
    } else {
        None
    }
}

/// A key is an optional plus sign and one or more hexadecimal digits, of
/// either case, that denote a value within `u64`.
pub open spec fn hex_of(s: Seq<u8>) -> Option<u64> {
    let d = unsigned_part(s);
    if d.len() > 0 && all_hex_digits(d) && hex_value(d) <= u64::MAX {
        Some(hex_value(d) as u64)
    } else {
        None
    }
}

/// The first `k` of a run of digits denote no more than the whole run.
pub proof fn lemma_decimal_prefix(s: Seq<u8>, k: int)
    requires
        all_digits(s),
        0 <= k <= s.len(),
    ensures
        decimal_value(s.subrange(0, k)) <= decimal_value(s),
    decreases s.len() - k,
{
    if k < s.len() {
        lemma_decimal_prefix(s, k + 1);
        let t = s.subrange(0, k + 1);
        assert(t.drop_last() =~= s.subrange(0, k));
        assert(is_digit(s[k]));
        assert(t.last() == s[k]);
    } else {
        assert(s.subrange(0, k) =~= s);
    }
}

/// The first `k` of a run of hexadecimal digits denote no more than the
/// whole run.
pub proof fn lemma_hex_prefix(s: Seq<u8>, k: int)
    requires
        0 <= k <= s.len(),
    ensures
        hex_value(s.subrange(0, k)) <= hex_value(s),
    decreases s.len() - k,
{
    if k < s.len() {
        lemma_hex_prefix(s, k + 1);
        let t = s.subrange(0, k + 1);
        assert(t.drop_last() =~= s.subrange(0, k));
    } else {
        assert(s.subrange(0, k) =~= s);
    }
}

/// Reads a count.
pub fn parse_count(tok: &[u8]) -> (r: Option<usize>)
    ensures
        r == count_of(tok@),
{
    let n: usize = tok.len();
    let start: usize = if n > 0 && tok[0] == CH_PLUS {
        1
    } else {
        0
    };
    let ghost d = unsigned_part(tok@);
    assert(d =~= tok@.subrange(start as int, n as int));
    if start == n {
        return None;
    }
    let mut acc: usize = 0;
    let mut i: usize = start;
    while i < n
        invariant
            start <= i <= n,
            n == tok@.len(),
            d == unsigned_part(tok@),
            d == tok@.subrange(start as int, n as int),
            all_digits(d.subrange(0, i - start)),
            acc == decimal_value(d.subrange(0, i - start)),
        decreases n - i,
    {
        let b: u8 = tok[i];
        if !(CH_0 <= b && b <= CH_9) {
            proof {
                assert(d[i - start] == b);
            }
            return None;
        }
        let ghost next = d.subrange(0, i - start + 1);
        proof {
            assert(next.drop_last() =~= d.subrange(0, i - start));
            assert(next.last() == b);
            assert forall|j: int| 0 <= j < next.len() implies is_digit(#[trigger] next[j]) by {
                if j < i - start {
                    assert(d.subrange(0, i - start)[j] == next[j]);
                }
            }
            if all_digits(d) {
                lemma_decimal_prefix(d, i - start + 1);
            }
        }
        let digit: usize = (b - CH_0) as usize;
        if acc > (usize::MAX - digit) / 10 {
            return None;
        }
        acc = acc * 10 + digit;
        i += 1;
    }
    proof {
        assert(d.subrange(0, i - start) =~= d);
    }
    if acc == 0 {
        None
    } else {
        Some(acc)
    }
}

/// The value of a hexadecimal digit.
pub fn hex_digit_value(b: u8) -> (r: Option<u8>)
    ensures
        match r {
            Some(d) => hex_digit(b) == Some(d as nat) && d < 16,
            None => hex_digit(b) is None,
        },
{
    if CH_0 <= b && b <= CH_9 {
        Some(b - CH_0)
    } else if CH_LOWER_A <= b && b <= CH_LOWER_F {
        Some(b - CH_LOWER_A + 10)
    } else if CH_UPPER_A <= b && b <= CH_UPPER_F {
        Some(b - CH_UPPER_A + 10)
    } else {
        None
    }
}

/// Reads a hexadecimal key.
pub fn parse_hex(tok: &[u8]) -> (r: Option<u64>)
    ensures
        r == hex_of(tok@),
{
    let n: usize = tok.len();
    let start: usize = if n > 0 && tok[0] == CH_PLUS {
        1
    } else {
        0
    };
    let ghost d = unsigned_part(tok@);
    assert(d =~= tok@.subrange(start as int, n as int));
    if start == n {
        return None;
    }
    let mut acc: u64 = 0;
    let mut i: usize = start;
    while i < n
        invariant
            start <= i <= n,
            n == tok@.len(),
            d == unsigned_part(tok@),
            d == tok@.subrange(start as int, n as int),
            all_hex_digits(d.subrange(0, i - start)),
            acc == hex_value(d.subrange(0, i - start)),
        decreases n - i,
    {
        let b: u8 = tok[i];
        let ghost next = d.subrange(0, i - start + 1);
        proof {
            assert(d[i - start] == b);
            assert(next.drop_last() =~= d.subrange(0, i - start));
            assert(next.last() == b);
            lemma_hex_prefix(d, i - start + 1);
        }
        match hex_digit_value(b) {
            None => {
                return None;
            },
            Some(digit) => {
                proof {
                    assert forall|j: int| 0 <= j < next.len() implies hex_digit(
                        #[trigger] next[j],
                    ) is Some by {
                        if j < i - start {
                            assert(d.subrange(0, i - start)[j] == next[j]);
                        }
                    }
                }
                if acc > (u64::MAX - digit as u64) / 16 {
                    return None;
                }
                acc = acc * 16 + digit as u64;
            },
        }
        i += 1;
    }
    proof {
        assert(d.subrange(0, i - start) =~= d);
    }
    Some(acc)
}

/// The lower-case form of an ASCII letter; other bytes stay as they are.
pub open spec fn lower(b: u8) -> u8 {
    if 65 <= b <= 90 {
        (b + 32) as u8
    } else {
        b
    }
}

/// Whether `s` spells the lower-case `word` when case is ignored.
pub open spec fn spells(s: Seq<u8>, word: Seq<u8>) -> bool {
    s.len() == word.len() && forall|i: int| 0 <= i < s.len() ==> lower(#[trigger] s[i]) == word[i]
}

/// First index at or after `from` that holds no decimal digit, or the length.
pub open spec fn digit_run(s: Seq<u8>, from: int) -> int
    decreases s.len() - from,
{
    if from >= s.len() {
        s.len() as int
    } else if !is_digit(s[from]) {
        from
    } else {
        digit_run(s, from + 1)
    }
}

/// An exponent part that starts at `at` and runs to the end: `e` or `E`, an
/// optional sign, and one or more digits.
pub open spec fn is_exponent(s: Seq<u8>, at: int) -> bool {
    &&& 0 <= at < s.len()
    &&& (s[at] == CH_LOWER_E || s[at] == CH_UPPER_E)
    &&& {
        let k = if at + 1 < s.len() && (s[at + 1] == CH_PLUS || s[at + 1] == CH_MINUS) {
            at + 2
        } else {
            at + 1
        };
        k < s.len() && is_digit(s[k]) && digit_run(s, k) == s.len()
    }
}

/// An unsigned decimal: digits with at most one point among them, at least
/// one digit in all, and an optional exponent part.
pub open spec fn is_decimal(s: Seq<u8>) -> bool {
    let i = digit_run(s, 0);
    let dot = i < s.len() && s[i] == CH_DOT;
    let j = if dot {
        digit_run(s, i + 1)
    } else {
        i
    };
    let digits = if dot {
        j - 1
    } else {
        j
    };
    digits >= 1 && (j == s.len() || is_exponent(s, j))
}

/// `s` without a leading plus or minus sign.
pub open spec fn signless(s: Seq<u8>) -> Seq<u8> {
    if s.len() > 0 && (s[0] == CH_PLUS || s[0] == CH_MINUS) {
        s.skip(1)
    } else {
        s
    }
}

/// A numeral is an optional sign followed by an unsigned decimal or by one of
/// the words `inf`, `infinity` and `nan` in any mix of cases.
pub open spec fn is_numeral(s: Seq<u8>) -> bool {
    let b = signless(s);
    is_decimal(b) || spells(b, ascii("inf"@)) || spells(b, ascii("infinity"@)) || spells(
        b,
        ascii("nan"@),
    )
}

/// The lower-case form of an ASCII letter; other bytes stay as they are.
pub fn lower_byte(b: u8) -> (r: u8)
    ensures
        r == lower(b),
{
    if 65 <= b && b <= 90 {
        b + 32
    } else {
        b
    }
}

/// Whether `s` spells the lower-case ASCII word `word` when case is ignored.
pub fn spells_word(s: &[u8], word: &str) -> (r: bool)
    requires
        is_ascii(word),
    ensures
        r == spells(s@, ascii(word@)),
{
    proof {
        is_ascii_spec_bytes(word);
    }
    let letters = word.as_bytes();
    if s.len() != letters.len() {
        return false;
    }
    let mut i: usize = 0;
    while i < s.len()
        invariant
            letters@ == ascii(word@),
            s@.len() == letters@.len(),
            0 <= i <= s@.len(),
            forall|j: int| 0 <= j < i ==> lower(#[trigger] s@[j]) == letters@[j],
        decreases s@.len() - i,
    {
        if lower_byte(s[i]) != letters[i] {
            return false;
        }
        i += 1;
    }
    true
}

/// Runs over decimal digits from `from`.
pub fn scan_digits(s: &[u8], from: usize) -> (r: usize)
    requires
        from <= s@.len(),
    ensures
        r == digit_run(s@, from as int),
        from <= r <= s@.len(),
{
    let mut i: usize = from;
    while i < s.len() && CH_0 <= s[i] && s[i] <= CH_9
        invariant
            from <= i <= s@.len(),
            digit_run(s@, from as int) == digit_run(s@, i as int),
        decreases s@.len() - i,
    {
        i += 1;
    }
    i
}

/// Whether an exponent part starts at `at` and runs to the end.
pub fn exponent_at(s: &[u8], at: usize) -> (r: bool)
    requires
        at < s@.len(),
    ensures
        r == is_exponent(s@, at as int),
{
    if s[at] != CH_LOWER_E && s[at] != CH_UPPER_E {
        return false;
    }
    let k: usize = if at + 1 < s.len() && (s[at + 1] == CH_PLUS || s[at + 1] == CH_MINUS) {
        at + 2
    } else {
        at + 1
    };
    if k >= s.len() {
        return false;
    }
    let m = scan_digits(s, k);
    m > k && m == s.len()
}

/// Whether `s` is an unsigned decimal.
pub fn decimal_bytes(s: &[u8]) -> (r: bool)
    ensures
        r == is_decimal(s@),
{
    let i = scan_digits(s, 0);
    let dot = i < s.len() && s[i] == CH_DOT;
    let j: usize = if dot {
        scan_digits(s, i + 1)
    } else {
        i
    };
    let digits: usize = if dot {
        j - 1
    } else {
        j
    };
    if digits < 1 {
        return false;
    }
    if j == s.len() {
        return true;
    }
    exponent_at(s, j)
}

/// Whether `tok` is a numeral.
pub fn numeral_bytes(tok: &[u8]) -> (r: bool)
    ensures
        r == is_numeral(tok@),
{
    let n: usize = tok.len();
    let start: usize = if n > 0 && (tok[0] == CH_PLUS || tok[0] == CH_MINUS) {
        1
    } else {
        0
    };
    let body = slice_subrange(tok, start, n);
    proof {
        assert(body@ =~= signless(tok@));
    }
    if decimal_bytes(body) {
        return true;
    }
    proof {
        reveal_strlit("inf");
        reveal_strlit("infinity");
        reveal_strlit("nan");
    }
    spells_word(body, "inf") || spells_word(body, "infinity") || spells_word(body, "nan")
}

} // verus!
