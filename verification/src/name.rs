use vstd::prelude::*;
use vstd::string::StringSliceAdditionalSpecFns;

use vstd::std_specs::cmp::PartialEqSpecImpl;

verus! {

/// The maximum number of characters in an account name.
pub const NAME_MAX_LEN: usize = 13;

/// Why a string is not a valid account name.
#[derive(Debug, Clone, Copy, PartialEq, Eq, Structural)]
pub enum ParseNameError {
    /// More than 13 characters.
    TooLong,
    /// A character outside `.12345a-z`, or a 13th character after `j`.
    BadChar(u8),
}

/// The 5-bit value of a name character: `.` is 0, `1`-`5` are 1-5, `a`-`z` are 6-31.
pub open spec fn spec_char_value(c: u8) -> Option<u64> {
    if c == 46 {
        Some(0u64)
    } else if 49 <= c <= 53 {
        Some((c - 48) as u64)
    } else if 97 <= c <= 122 {
        Some((c - 91) as u64)
    } else {
        None
    }
}

/// The character of a 5-bit name digit.
pub open spec fn spec_name_char(d: u64) -> u8 {
    if d == 0 {
        46u8
    } else if d <= 5 {
        (d + 48) as u8
    } else {
        (d + 91) as u8
    }
}

/// Digit `i` of a name value: digits 0..11 are 5 bits each from the top,
/// digit 12 is the lowest 4 bits.
pub open spec fn name_digit(v: u64, i: int) -> u64 {
    if i < 12 {
        (v >> ((59 - 5 * i) as u64)) & 31
    } else {
        v & 15
    }
}

/// Proves that the 13 digits of a name value determine it.
pub proof fn lemma_digits_determine(a: u64, b: u64)
    requires
        forall|i: int| 0 <= i < 13 ==> #[trigger] name_digit(a, i) == name_digit(b, i),
    ensures
        a == b,
{
    assert(name_digit(a, 0) == name_digit(b, 0));
    assert(name_digit(a, 1) == name_digit(b, 1));
    assert(name_digit(a, 2) == name_digit(b, 2));
    assert(name_digit(a, 3) == name_digit(b, 3));
    assert(name_digit(a, 4) == name_digit(b, 4));
    assert(name_digit(a, 5) == name_digit(b, 5));
    assert(name_digit(a, 6) == name_digit(b, 6));
    assert(name_digit(a, 7) == name_digit(b, 7));
    assert(name_digit(a, 8) == name_digit(b, 8));
    assert(name_digit(a, 9) == name_digit(b, 9));
    assert(name_digit(a, 10) == name_digit(b, 10));
    assert(name_digit(a, 11) == name_digit(b, 11));
    assert(name_digit(a, 12) == name_digit(b, 12));
    assert(a == b) by (bit_vector)
        requires
            (a >> 59u64) & 31 == (b >> 59u64) & 31,
            (a >> 54u64) & 31 == (b >> 54u64) & 31,
            (a >> 49u64) & 31 == (b >> 49u64) & 31,
            (a >> 44u64) & 31 == (b >> 44u64) & 31,
            (a >> 39u64) & 31 == (b >> 39u64) & 31,
            (a >> 34u64) & 31 == (b >> 34u64) & 31,
            (a >> 29u64) & 31 == (b >> 29u64) & 31,
            (a >> 24u64) & 31 == (b >> 24u64) & 31,
            (a >> 19u64) & 31 == (b >> 19u64) & 31,
            (a >> 14u64) & 31 == (b >> 14u64) & 31,
            (a >> 9u64) & 31 == (b >> 9u64) & 31,
            (a >> 4u64) & 31 == (b >> 4u64) & 31,
            a & 15 == b & 15,
    ;
}

proof fn lemma_set_digit(value: u64, d: u64, i: u64, j: u64)
    requires
        d < 32,
        i < 12,
        j < 12,
        (value >> (59 - 5 * i) as u64) & 31 == 0,
    ensures
        j != i ==> ((value | (d << (59 - 5 * i) as u64)) >> (59 - 5 * j) as u64) & 31 == (value
            >> (59 - 5 * j) as u64) & 31,
        ((value | (d << (59 - 5 * i) as u64)) >> (59 - 5 * i) as u64) & 31 == d,
        (value | (d << (59 - 5 * i) as u64)) & 15 == value & 15,
{
    assert(j != i ==> ((value | (d << (59 - 5 * i) as u64)) >> (59 - 5 * j) as u64) & 31 == (value
        >> (59 - 5 * j) as u64) & 31) by (bit_vector)
        requires
            d < 32,
            i < 12,
            j < 12,
    ;
    assert(((value | (d << (59 - 5 * i) as u64)) >> (59 - 5 * i) as u64) & 31 == d) by (bit_vector)
        requires
            d < 32,
            i < 12,
            (value >> (59 - 5 * i) as u64) & 31 == 0,
    ;
    assert((value | (d << (59 - 5 * i) as u64)) & 15 == value & 15) by (bit_vector)
        requires
            d < 32,
            i < 12,
    ;
}


/// The index of the first character among `s[i..k]` that is not a name
/// character, if any.
pub open spec fn first_bad_char(s: Seq<u8>, i: int, k: int) -> Option<int>
    decreases k - i,
{
    if i >= k {
        None
    } else if spec_char_value(s[i]) is None {
        Some(i)
    } else {
        first_bad_char(s, i + 1, k)
    }
}

/// What goes wrong when `s` is read as a name, or `None` when it is a name.
pub open spec fn name_parse_error(s: Seq<u8>) -> Option<ParseNameError> {
    let k = if s.len() < 12 { s.len() as int } else { 12 };
    match first_bad_char(s, 0, k) {
        Some(i) => Some(ParseNameError::BadChar(s[i])),
        None => if s.len() >= 13 && !(spec_char_value(s[12]) matches Some(d) && d <= 15) {
            Some(ParseNameError::BadChar(s[12]))
        } else if s.len() > 13 {
            Some(ParseNameError::TooLong)
        } else {
            None
        },
    }
}

/// The digit that position `i` of the string `s` asks for: the value of its
/// character, or 0 (a dot) past its end.
pub open spec fn wanted_digit(s: Seq<u8>, i: int) -> u64 {
    if i < s.len() {
        match spec_char_value(s[i]) {
            Some(d) => d,
            None => 0,
        }
    } else {
        0
    }
}

/// `v` is the name value whose characters are `s`, padded with dots.
pub open spec fn name_matches(v: u64, s: Seq<u8>) -> bool {
    forall|i: int| 0 <= i < 13 ==> #[trigger] name_digit(v, i) == wanted_digit(s, i)
}

/// The number a string of name characters stands for: each of the first
/// twelve characters gives five bits from the top, a thirteenth the lowest
/// four, and missing characters count as dots.
pub open spec fn name_value_of(s: Seq<u8>) -> int {
    wanted_digit(s, 0) * 576460752303423488 + wanted_digit(s, 1) * 18014398509481984 + wanted_digit(s, 2) * 562949953421312 + wanted_digit(s, 3) * 17592186044416 + wanted_digit(s, 4) * 549755813888 + wanted_digit(s, 5) * 17179869184 + wanted_digit(s, 6) * 536870912 + wanted_digit(s, 7) * 16777216 + wanted_digit(s, 8) * 524288 + wanted_digit(s, 9) * 16384 + wanted_digit(s, 10) * 512 + wanted_digit(s, 11) * 16 + wanted_digit(s, 12)
}

/// A name value is the number its characters stand for: whenever `v` is the
/// value whose characters are `s`, it equals `name_value_of(s)`.
pub proof fn lemma_name_value(v: u64, s: Seq<u8>)
    requires
        name_matches(v, s),
    ensures
        v == name_value_of(s),
{
    assert(name_digit(v, 0) == wanted_digit(s, 0));
    assert(name_digit(v, 1) == wanted_digit(s, 1));
    assert(name_digit(v, 2) == wanted_digit(s, 2));
    assert(name_digit(v, 3) == wanted_digit(s, 3));
    assert(name_digit(v, 4) == wanted_digit(s, 4));
    assert(name_digit(v, 5) == wanted_digit(s, 5));
    assert(name_digit(v, 6) == wanted_digit(s, 6));
    assert(name_digit(v, 7) == wanted_digit(s, 7));
    assert(name_digit(v, 8) == wanted_digit(s, 8));
    assert(name_digit(v, 9) == wanted_digit(s, 9));
    assert(name_digit(v, 10) == wanted_digit(s, 10));
    assert(name_digit(v, 11) == wanted_digit(s, 11));
    assert(name_digit(v, 12) == wanted_digit(s, 12));
    assert(v == ((v >> 59u64) & 31u64) * 576460752303423488u64 + ((v >> 54u64) & 31u64) * 18014398509481984u64 + ((v >> 49u64) & 31u64) * 562949953421312u64 + ((v >> 44u64) & 31u64) * 17592186044416u64 + ((v >> 39u64) & 31u64) * 549755813888u64 + ((v >> 34u64) & 31u64) * 17179869184u64 + ((v >> 29u64) & 31u64) * 536870912u64 + ((v >> 24u64) & 31u64) * 16777216u64 + ((v >> 19u64) & 31u64) * 524288u64 + ((v >> 14u64) & 31u64) * 16384u64 + ((v >> 9u64) & 31u64) * 512u64 + ((v >> 4u64) & 31u64) * 16u64 + (v & 15u64)) by (bit_vector);
}

/// The 13 characters of the name value `v`.
pub open spec fn spec_name_bytes(v: u64) -> Seq<u8> {
    Seq::new(13, |i: int| spec_name_char(name_digit(v, i)))
}

fn char_value(c: u8) -> (r: Option<u64>)
    ensures
        r == spec_char_value(c),
{
    if c == 46 {
        Some(0)
    } else if 49 <= c && c <= 53 {
        Some((c - 48) as u64)
    } else if 97 <= c && c <= 122 {
        Some((c - 91) as u64)
    } else {
        None
    }
}

fn name_char(d: u64) -> (r: u8)
    requires
        d < 32,
    ensures
        r == spec_name_char(d),
{
    if d == 0 {
        46
    } else if d <= 5 {
        (d + 48) as u8
    } else {
        (d + 91) as u8
    }
}

/// Reads an account name from its characters.
///
/// Up to 12 characters from `.12345a-z` fill the 5-bit digits from the top;
/// a 13th character, from `.12345a-j`, fills the lowest 4 bits; missing
/// characters count as dots.
pub fn name_from_bytes(s: &[u8]) -> (r: Result<u64, ParseNameError>)
    ensures
        match r {
            Ok(v) => name_parse_error(s@) is None && name_matches(v, s@),
            Err(e) => name_parse_error(s@) == Some(e),
        },
{
    let ghost sq = s@;
    let n = s.len();
    let k: usize = if n < 12 { n } else { 12 };
    let mut value: u64 = 0;
    let mut i: usize = 0;
    proof {
        assert forall|j: int| 0 <= j < 13 implies #[trigger] name_digit(0u64, j) == 0 by {
            if j < 12 {
                let jj = j as u64;
                assert((0u64 >> (59 - 5 * jj) as u64) & 31 == 0) by (bit_vector);
            } else {
                assert(0u64 & 15 == 0) by (bit_vector);
            }
        }
    }
    while i < k
        invariant
            sq == s@,
            n == s.len(),
            k == if n < 12 { n as int } else { 12 },
            0 <= i <= k,
            first_bad_char(sq, 0, k as int) == first_bad_char(sq, i as int, k as int),
            forall|j: int| 0 <= j < 13 ==> #[trigger] name_digit(value, j) == (if j < i {
                wanted_digit(sq, j)
            } else {
                0
            }),
        decreases k - i,
    {
        let c = s[i];
        match char_value(c) {
            None => {
                return Err(ParseNameError::BadChar(c));
            },
            Some(d) => {
                let ghost old_value = value;
                proof {
                    assert(name_digit(value, i as int) == 0);
                    assert forall|j: int| 0 <= j < 13 implies #[trigger] name_digit(
                        old_value | (d << (59 - 5 * i) as u64),
                        j,
                    ) == (if j < i + 1 {
                        wanted_digit(sq, j)
                    } else {
                        0
                    }) by {
                        if j < 12 {
                            lemma_set_digit(old_value, d, i as u64, j as u64);
                            assert(name_digit(old_value, j) == (if j < i {
                                wanted_digit(sq, j)
                            } else {
                                0
                            }));
                        } else {
                            lemma_set_digit(old_value, d, i as u64, 0);
                            assert(name_digit(old_value, 12) == 0);
                        }
                    }
                }
                value = value | (d << (59 - 5 * i) as u64);
                i = i + 1;
            },
        }
    }
    if n >= 13 {
        let c = s[12];
        match char_value(c) {
            Some(d) => {
                if d > 15 {
                    return Err(ParseNameError::BadChar(c));
                }
                if n > 13 {
                    return Err(ParseNameError::TooLong);
                }
                let ghost old_value = value;
                proof {
                    assert forall|j: int| 0 <= j < 13 implies #[trigger] name_digit(
                        old_value | d,
                        j,
                    ) == wanted_digit(sq, j) by {
                        assert(name_digit(old_value, j) == (if j < 12 {
                            wanted_digit(sq, j)
                        } else {
                            0
                        }));
                        if j < 12 {
                            let jj = j as u64;
                            assert(((old_value | d) >> (59 - 5 * jj) as u64) & 31 == (old_value >> (
                            59 - 5 * jj) as u64) & 31) by (bit_vector)
                                requires
                                    d < 16,
                                    jj < 12,
                            ;
                        } else {
                            assert((old_value | d) & 15 == d) by (bit_vector)
                                requires
                                    d < 16,
                                    old_value & 15 == 0,
                            ;
                        }
                    }
                }
                value = value | d;
            },
            None => {
                return Err(ParseNameError::BadChar(c));
            },
        }
    }
    Ok(value)
}


/// The characters of a name value, with every digit spelled out.
pub fn name_to_bytes(value: u64) -> (r: [u8; NAME_MAX_LEN])
    ensures
        r@ == spec_name_bytes(value),
{
    let mut chars = [46u8; 13];
    let mut i: usize = 0;
    while i < 13
        invariant
            0 <= i <= 13,
            chars@.len() == 13,
            forall|j: int| 0 <= j < i ==> chars@[j] == spec_name_char(#[trigger] name_digit(value, j)),
        decreases 13 - i,
    {
        let d: u64 = if i < 12 {
            let sh: u64 = (59 - 5 * i) as u64;
            assert((value >> sh) & 31 < 32) by (bit_vector);
            (value >> sh) & 31
        } else {
            assert(value & 15 < 32) by (bit_vector);
            value & 15
        };
        chars[i] = name_char(d);
        i = i + 1;
    }
    assert(chars@ =~= spec_name_bytes(value));
    chars
}

/// `s` without its trailing dots.
pub open spec fn trim_dots(s: Seq<u8>) -> Seq<u8>
    decreases s.len(),
{
    if s.len() > 0 && s.last() == 46 {
        trim_dots(s.drop_last())
    } else {
        s
    }
}

proof fn lemma_trim_dots(s: Seq<u8>)
    ensures
        trim_dots(s).len() <= s.len(),
        trim_dots(s) =~= s.take(trim_dots(s).len() as int),
        forall|i: int| trim_dots(s).len() <= i < s.len() ==> s[i] == 46,
        trim_dots(s).len() > 0 ==> trim_dots(s).last() != 46,
    decreases s.len(),
{
    if s.len() > 0 && s.last() == 46 {
        lemma_trim_dots(s.drop_last());
        assert forall|i: int| trim_dots(s).len() <= i < s.len() implies s[i] == 46 by {
            if i < s.len() - 1 {
                assert(s[i] == s.drop_last()[i]);
            }
        }
    }
}

proof fn lemma_trim_padded(s: Seq<u8>, t: Seq<u8>)
    requires
        s.len() <= t.len(),
        s =~= t.take(s.len() as int),
        forall|i: int| s.len() <= i < t.len() ==> t[i] == 46,
        s.len() > 0 ==> s.last() != 46,
    ensures
        trim_dots(t) == s,
    decreases t.len(),
{
    if t.len() > s.len() {
        assert(t.last() == 46);
        lemma_trim_padded(s, t.drop_last());
    } else {
        assert(t =~= s);
    }
}

proof fn lemma_first_bad_none(s: Seq<u8>, i: int, k: int)
    requires
        0 <= i,
        k <= s.len(),
        forall|j: int| i <= j < k ==> #[trigger] spec_char_value(s[j]) is Some,
    ensures
        first_bad_char(s, i, k) is None,
    decreases k - i,
{
    if i < k {
        lemma_first_bad_none(s, i + 1, k);
    }
}

proof fn lemma_first_bad_some(s: Seq<u8>, i: int, k: int)
    requires
        0 <= i,
        k <= s.len(),
        first_bad_char(s, i, k) is None,
    ensures
        forall|j: int| i <= j < k ==> #[trigger] spec_char_value(s[j]) is Some,
    decreases k - i,
{
    if i < k {
        lemma_first_bad_some(s, i + 1, k);
    }
}

proof fn lemma_digit_small(v: u64, i: int)
    ensures
        name_digit(v, i) < 32,
        i >= 12 ==> name_digit(v, i) < 16,
{
    if i < 12 {
        let sh = (59 - 5 * i) as u64;
        assert((v >> sh) & 31 < 32) by (bit_vector);
    } else {
        assert(v & 15 < 16) by (bit_vector);
    }
}

/// Proves that a string that is no valid name matches no name value either way,
/// and that two values matching the same string are equal.
pub proof fn lemma_matches_unique(a: u64, b: u64, s: Seq<u8>)
    requires
        name_matches(a, s),
        name_matches(b, s),
    ensures
        a == b,
{
    assert forall|i: int| 0 <= i < 13 implies #[trigger] name_digit(a, i) == name_digit(b, i) by {
        assert(name_digit(a, i) == wanted_digit(s, i));
        assert(name_digit(b, i) == wanted_digit(s, i));
    }
    lemma_digits_determine(a, b);
}

/// Proves that the string of a name value, with or without its trailing dots,
/// reads back as a valid name with that very value.
pub proof fn lemma_name_string_roundtrip(v: u64)
    ensures
        name_parse_error(spec_name_bytes(v)) is None,
        name_matches(v, spec_name_bytes(v)),
        name_parse_error(trim_dots(spec_name_bytes(v))) is None,
        name_matches(v, trim_dots(spec_name_bytes(v))),
{
    let b = spec_name_bytes(v);
    let t = trim_dots(b);
    lemma_trim_dots(b);
    assert forall|j: int| 0 <= j < 13 implies #[trigger] spec_char_value(b[j]) == Some(
        name_digit(v, j),
    ) by {
        lemma_digit_small(v, j);
    }
    assert forall|j: int| 0 <= j < t.len() implies #[trigger] spec_char_value(t[j]) is Some by {
        assert(t[j] == b[j]);
        assert(spec_char_value(b[j]) == Some(name_digit(v, j)));
    }
    lemma_digit_small(v, 12);
    lemma_first_bad_none(b, 0, 12);
    let k = if t.len() < 12 { t.len() as int } else { 12 };
    lemma_first_bad_none(t, 0, k);
    if t.len() >= 13 {
        assert(t[12] == b[12]);
    }
    assert forall|i: int| 0 <= i < 13 implies #[trigger] name_digit(v, i) == wanted_digit(b, i) by {
        assert(spec_char_value(b[i]) == Some(name_digit(v, i)));
    }
    assert forall|i: int| 0 <= i < 13 implies #[trigger] name_digit(v, i) == wanted_digit(t, i) by {
        assert(spec_char_value(b[i]) == Some(name_digit(v, i)));
        if i < t.len() {
            assert(t[i] == b[i]);
        } else {
            assert(b[i] == 46);
        }
    }
}

/// Proves that a valid name string without trailing dots is exactly what
/// the value read from it spells, once the padding dots are trimmed.
pub proof fn lemma_name_value_roundtrip(s: Seq<u8>, v: u64)
    requires
        name_parse_error(s) is None,
        name_matches(v, s),
        s.len() > 0 ==> s.last() != 46,
    ensures
        trim_dots(spec_name_bytes(v)) == s,
{
    let k = if s.len() < 12 { s.len() as int } else { 12 };
    lemma_first_bad_some(s, 0, k);
    let b = spec_name_bytes(v);
    assert(s.len() <= 13);
    assert forall|i: int| 0 <= i < s.len() implies b[i] == #[trigger] s[i] by {
        assert(name_digit(v, i) == wanted_digit(s, i));
        if i == 12 {
            assert(spec_char_value(s[12]) is Some);
        } else {
            assert(spec_char_value(s[i]) is Some);
        }
    }
    assert forall|i: int| s.len() <= i < 13 implies b[i] == 46 by {
        assert(name_digit(v, i) == wanted_digit(s, i));
    }
    lemma_trim_padded(s, b);
}

proof fn lemma_suffix_bits(v: u64, p: u64, j: u64)
    requires
        p < 12,
        j < 12,
    ensures
        ({
            let rab: u64 = (59 - 5 * p) as u64;
            let r: u64 = ((v & (((1u64 << rab) - 16) as u64)) << ((64 - rab) as u64)) | ((v & 15) << ((63 - rab) as u64));
            &&& (j + p < 11 ==> (r >> ((59 - 5 * j) as u64)) & 31 == (v >> ((59 - 5 * (p + 1 + j)) as u64)) & 31)
            &&& (j + p == 11 ==> (r >> ((59 - 5 * j) as u64)) & 31 == v & 15)
            &&& (j + p > 11 ==> (r >> ((59 - 5 * j) as u64)) & 31 == 0)
            &&& r & 15 == 0
        }),
{
    assert({
            let rab: u64 = (59 - 5 * p) as u64;
            let r: u64 = ((v & (((1u64 << rab) - 16) as u64)) << ((64 - rab) as u64)) | ((v & 15) << ((63 - rab) as u64));
            &&& (j + p < 11 ==> (r >> ((59 - 5 * j) as u64)) & 31 == (v >> ((59 - 5 * (p + 1 + j)) as u64)) & 31)
            &&& (j + p == 11 ==> (r >> ((59 - 5 * j) as u64)) & 31 == v & 15)
            &&& (j + p > 11 ==> (r >> ((59 - 5 * j) as u64)) & 31 == 0)
            &&& r & 15 == 0
        }) by (bit_vector)
        requires p < 12, j < 12;
}


/// The index of the last dot among the first `i` characters (only the first
/// 12 characters count), or -1.
pub open spec fn last_dot_before(v: u64, i: int) -> int
    decreases i,
{
    if i <= 0 {
        -1
    } else if name_digit(v, i - 1) == 0 {
        i - 1
    } else {
        last_dot_before(v, i - 1)
    }
}

/// The index of the last dot among the first `i` characters that some later
/// non-dot character among them follows, or -1.
pub open spec fn last_inner_dot_before(v: u64, i: int) -> int
    decreases i,
{
    if i <= 0 {
        -1
    } else if name_digit(v, i - 1) != 0 {
        last_dot_before(v, i - 1)
    } else {
        last_inner_dot_before(v, i - 1)
    }
}

/// `r` is the suffix of the name `v`: the characters after its last dot that
/// a non-dot character follows, moved to the front; `v` itself when it has
/// no such dot.
pub open spec fn is_name_suffix(v: u64, r: u64) -> bool {
    let p = last_inner_dot_before(v, 13);
    if p < 0 {
        r == v
    } else {
        forall|j: int|
            0 <= j < 13 ==> #[trigger] name_digit(r, j) == (if j <= 11 - p {
                name_digit(v, p + 1 + j)
            } else {
                0
            })
    }
}

/// A name has exactly one suffix.
pub proof fn lemma_suffix_unique(v: u64, r1: u64, r2: u64)
    requires
        is_name_suffix(v, r1),
        is_name_suffix(v, r2),
    ensures
        r1 == r2,
{
    let p = last_inner_dot_before(v, 13);
    if p >= 0 {
        assert forall|i: int| 0 <= i < 13 implies #[trigger] name_digit(r1, i) == name_digit(r2, i) by {
            assert(name_digit(r1, i) == name_digit(r1, i));
        }
        lemma_digits_determine(r1, r2);
    }
}

/// The bit position of the digit at index `p`, or 0 for -1.
pub open spec fn dot_bits(p: int) -> u32 {
    if p < 0 {
        0
    } else {
        (59 - 5 * p) as u32
    }
}

proof fn lemma_dot_indices(v: u64, i: int)
    requires
        0 <= i <= 12,
    ensures
        -1 <= last_dot_before(v, i) < i,
        -1 <= last_inner_dot_before(v, i) < i,
    decreases i,
{
    if i > 0 {
        lemma_dot_indices(v, i - 1);
    }
}

/// An account name: up to 13 characters packed into 64 bits.
#[derive(Debug, Clone, Copy, PartialEq, Eq, Structural, Hash, PartialOrd, Ord)]
pub struct Name(pub u64);

impl Default for Name {
    fn default() -> (r: Self)
        ensures
            r.0 == 0,
    {
        Name(0)
    }
}

impl From<u64> for Name {
    fn from(n: u64) -> (r: Self) {
        Name(n)
    }
}

impl vstd::std_specs::convert::FromSpecImpl<u64> for Name {
    open spec fn obeys_from_spec() -> bool {
        true
    }

    open spec fn from_spec(v: u64) -> Self {
        Name(v)
    }
}

impl From<Name> for u64 {
    fn from(n: Name) -> (r: u64) {
        n.0
    }
}

impl vstd::std_specs::convert::FromSpecImpl<Name> for u64 {
    open spec fn obeys_from_spec() -> bool {
        true
    }

    open spec fn from_spec(n: Name) -> u64 {
        n.0
    }
}

impl PartialEq<u64> for Name {
    fn eq(&self, other: &u64) -> (r: bool) {
        self.0 == *other
    }
}

impl PartialEqSpecImpl<u64> for Name {
    open spec fn obeys_eq_spec() -> bool {
        true
    }

    open spec fn eq_spec(&self, other: &u64) -> bool {
        self.0 == *other
    }
}

/// An account name parsed from a string literal.
pub struct PulseName(pub u64);

impl PulseName {
    /// Reads the name that a string literal spells.
    pub fn parse(s: &str) -> (r: Result<Self, ParseNameError>)
        ensures
            match r {
                Ok(n) => name_parse_error(s.spec_bytes()) is None && name_matches(
                    n.0,
                    s.spec_bytes(),
                ),
                Err(e) => name_parse_error(s.spec_bytes()) == Some(e),
            },
    {
        match name_from_bytes(s.as_bytes()) {
            Ok(v) => Ok(PulseName(v)),
            Err(e) => Err(e),
        }
    }
}

impl Name {
    /// Creates a new name.
    pub fn new(value: u64) -> (r: Self)
        ensures
            r.0 == value,
    {
        Name(value)
    }

    /// The 64-bit value of the name.
    pub fn raw(&self) -> (r: u64)
        ensures
            r == self.0,
    {
        self.0
    }

    /// The 64-bit value of the name.
    pub fn as_u64(&self) -> (r: u64)
        ensures
            r == self.0,
    {
        self.0
    }

    /// Whether the name is the empty name (all dots).
    pub fn is_empty(&self) -> (r: bool)
        ensures
            r == (self.0 == 0),
    {
        self.0 == 0
    }

    /// Whether the name has the given 64-bit value.
    pub fn eq_raw(&self, other: u64) -> (r: bool)
        ensures
            r == (self.0 == other),
    {
        self.0 == other
    }

    /// The 13 characters of the name, trailing dots included.
    pub fn as_bytes(&self) -> (r: [u8; NAME_MAX_LEN])
        ensures
            r@ == spec_name_bytes(self.0),
    {
        name_to_bytes(self.0)
    }

    /// The name as text: its characters without the trailing dots.
    pub fn to_string(&self) -> (r: String)
        ensures
            r@ == trim_dots(spec_name_bytes(self.0)).map_values(|b: u8| b as char),
    {
        let bytes = name_to_bytes(self.0);
        let ghost b = bytes@;
        let mut len: usize = 13;
        proof {
            assert(b.take(13) =~= b);
        }
        while len > 0 && bytes[len - 1] == 46
            invariant
                b == bytes@,
                b.len() == 13,
                0 <= len <= 13,
                trim_dots(b) == trim_dots(b.take(len as int)),
            decreases len,
        {
            proof {
                assert(b.take(len as int).drop_last() =~= b.take(len - 1));
            }
            len = len - 1;
        }
        let ghost t = b.take(len as int);
        assert(trim_dots(t) == t);
        let mut out = String::new();
        let mut i: usize = 0;
        while i < len
            invariant
                b == bytes@,
                b.len() == 13,
                0 <= i <= len <= 13,
                t == b.take(len as int),
                out@ =~= t.take(i as int).map_values(|c: u8| c as char),
            decreases len - i,
        {
            let c = bytes[i];
            crate::text::push_char(&mut out, c as char);
            proof {
                assert(t.take(i + 1) =~= t.take(i as int).push(c));
            }
            i = i + 1;
        }
        assert(t.take(len as int) =~= t);
        out
    }

    /// The suffix of the name: the part after its last dot that a non-dot
    /// character follows, as a name of its own.
    pub fn suffix(self) -> (r: Self)
        ensures
            is_name_suffix(self.0, r.0),
    {
        let v = self.0;
        let mut after_last_inner_dot: u32 = 0;
        let mut tmp: u32 = 0;
        let mut i: u32 = 0;
        while i < 12
            invariant
                0 <= i <= 12,
                tmp == dot_bits(last_dot_before(v, i as int)),
                after_last_inner_dot == dot_bits(last_inner_dot_before(v, i as int)),
            decreases 12 - i,
        {
            let bits: u32 = 59 - 5 * i;
            let c = (v >> bits) & 0x1f;
            proof {
                lemma_dot_indices(v, i as int);
                assert(c == name_digit(v, i as int));
            }
            if c == 0 {
                tmp = bits;
            } else {
                after_last_inner_dot = tmp;
            }
            i = i + 1;
        }
        let thirteenth = v & 0x0f;
        if thirteenth != 0 {
            after_last_inner_dot = tmp;
        }
        proof {
            lemma_dot_indices(v, 12);
            assert(thirteenth == name_digit(v, 12));
        }
        if after_last_inner_dot == 0 {
            return self;
        }
        let rab: u64 = after_last_inner_dot as u64;
        let ghost p = last_inner_dot_before(v, 13);
        assert(0 <= p < 12);
        assert(rab == 59 - 5 * p);
        assert(1u64 << rab >= 16) by (bit_vector)
            requires
                4 <= rab < 64,
        ;
        let mask: u64 = (1u64 << rab) - 16;
        let shift: u64 = 64 - rab;
        let r = ((v & mask) << shift) | (thirteenth << (shift - 1));
        proof {
            assert forall|j: int| 0 <= j < 13 implies #[trigger] name_digit(r, j) == (if j <= 11
                - p {
                name_digit(v, p + 1 + j)
            } else {
                0
            }) by {
                let jj: u64 = if j < 12 { j as u64 } else { 0 };
                lemma_suffix_bits(v, p as u64, jj);
            }
        }
        Name(r)
    }

    /// Reads a name from its text.
    pub fn from_str(s: &str) -> (r: Result<Self, ParseNameError>)
        ensures
            match r {
                Ok(n) => name_parse_error(s.spec_bytes()) is None && name_matches(
                    n.0,
                    s.spec_bytes(),
                ),
                Err(e) => name_parse_error(s.spec_bytes()) == Some(e),
            },
    {
        match name_from_bytes(s.as_bytes()) {
            Ok(v) => Ok(Name(v)),
            Err(e) => Err(e),
        }
    }
}

} // verus!
