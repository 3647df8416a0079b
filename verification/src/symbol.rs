use vstd::prelude::*;
use vstd::string::StringSliceAdditionalSpecFns;

verus! {

/// The maximum number of characters in a symbol code.
pub const SYMBOL_CODE_MAX_LEN: usize = 7;

/// Why a string is not a valid symbol code.
#[derive(Debug, Clone, Copy, PartialEq, Eq, Structural)]
pub enum ParseSymbolCodeError {
    /// The symbol is too long. Symbols must be 7 characters or less.
    TooLong,
    /// The symbol contains an invalid character. Symbols can only contain
    /// uppercase letters A-Z.
    BadChar(u8),
}

/// Byte `i` of `v`, counting from the lowest.
pub open spec fn byte_at(v: u64, i: int) -> u64 {
    (v >> ((8 * i) as u64)) & 0xff
}

/// `c` is an uppercase letter.
pub open spec fn is_upper(c: u8) -> bool {
    65 <= c <= 90
}

/// The index of the last character among `s[..i]` that is not an uppercase
/// letter, if any.
pub open spec fn last_non_upper(s: Seq<u8>, i: int) -> Option<int>
    decreases i,
{
    if i <= 0 {
        None
    } else if !is_upper(s[i - 1]) {
        Some(i - 1)
    } else {
        last_non_upper(s, i - 1)
    }
}

/// What goes wrong when `s` is read as a symbol code, or `None` when it is one.
pub open spec fn symbol_code_error(s: Seq<u8>) -> Option<ParseSymbolCodeError> {
    if s.len() > 7 {
        Some(ParseSymbolCodeError::TooLong)
    } else {
        match last_non_upper(s, s.len() as int) {
            Some(i) => Some(ParseSymbolCodeError::BadChar(s[i])),
            None => None,
        }
    }
}

/// `v` holds the characters of `s` from its lowest byte up, and zero bytes
/// after them.
pub open spec fn symbol_code_matches(v: u64, s: Seq<u8>) -> bool {
    forall|j: int| 0 <= j < 8 ==> #[trigger] byte_at(v, j) == (if j < s.len() {
        s[j] as u64
    } else {
        0
    })
}

/// The 7 characters of a symbol code value: byte `j` while some byte from
/// `j` on is not zero, then spaces.
pub open spec fn spec_symbol_code_bytes(v: u64) -> Seq<u8> {
    Seq::new(
        7,
        |j: int|
            if (v >> ((8 * j) as u64)) == 0 {
                32u8
            } else {
                byte_at(v, j) as u8
            },
    )
}

/// A symbol code value spells only uppercase letters and spaces.
pub open spec fn spec_symbol_code_valid(v: u64) -> bool {
    forall|j: int|
        0 <= j < 7 ==> #[trigger] spec_symbol_code_bytes(v)[j] == 32 || is_upper(
            spec_symbol_code_bytes(v)[j],
        )
}

proof fn lemma_push_byte(value: u64, c: u64, j: u64)
    requires
        c < 256,
        j < 8,
        value >> 56u64 == 0,
    ensures
        j == 0 ==> (((value << 8u64) | c) >> (8 * j) as u64) & 0xff == c,
        0 < j ==> (((value << 8u64) | c) >> (8 * j) as u64) & 0xff == (value >> (8 * (j - 1))
            as u64) & 0xff,
{
    assert(j == 0 ==> (((value << 8u64) | c) >> (8 * j) as u64) & 0xff == c) by (bit_vector)
        requires
            c < 256,
    ;
    assert(0 < j ==> (((value << 8u64) | c) >> (8 * j) as u64) & 0xff == (value >> (8 * (j - 1))
        as u64) & 0xff) by (bit_vector)
        requires
            c < 256,
            j < 8,
            value >> 56u64 == 0,
    ;
}

proof fn lemma_high_bytes_zero(value: u64, k: u64)
    requires
        k < 7,
        forall|j: int| k <= j < 8 ==> #[trigger] byte_at(value, j) == 0,
    ensures
        value >> 56u64 == 0,
{
    assert(byte_at(value, 7) == 0);
    assert((value >> 56u64) & 0xff == 0 ==> value >> 56u64 == 0) by (bit_vector);
}

/// Reads a symbol code from its characters: the first character goes into
/// the lowest byte.
pub fn symbol_code_from_bytes(bytes: &[u8]) -> (r: Result<u64, ParseSymbolCodeError>)
    ensures
        match r {
            Ok(v) => symbol_code_error(bytes@) is None && symbol_code_matches(v, bytes@),
            Err(e) => symbol_code_error(bytes@) == Some(e),
        },
{
    let mut value: u64 = 0;
    if bytes.len() > SYMBOL_CODE_MAX_LEN {
        return Err(ParseSymbolCodeError::TooLong);
    }
    let n = bytes.len();
    let mut i = n;
    proof {
        assert forall|j: int| 0 <= j < 8 implies #[trigger] byte_at(0u64, j) == 0 by {
            let jj = j as u64;
            assert((0u64 >> (8 * jj) as u64) & 0xff == 0) by (bit_vector);
        }
    }
    while i > 0
        invariant
            n == bytes.len(),
            n <= 7,
            0 <= i <= n,
            last_non_upper(bytes@, n as int) == last_non_upper(bytes@, i as int),
            forall|j: int| 0 <= j < 8 ==> #[trigger] byte_at(value, j) == (if j < n - i {
                bytes@[i + j] as u64
            } else {
                0
            }),
        decreases i,
    {
        i = i - 1;
        let c = bytes[i];
        if c < 65 || c > 90 {
            return Err(ParseSymbolCodeError::BadChar(c));
        }
        let ghost old_value = value;
        proof {
            lemma_high_bytes_zero(old_value, (n - i - 1) as u64);
            assert forall|j: int| 0 <= j < 8 implies #[trigger] byte_at(
                (old_value << 8u64) | (c as u64),
                j,
            ) == (if j < n - i {
                bytes@[i + j] as u64
            } else {
                0
            }) by {
                lemma_push_byte(old_value, c as u64, j as u64);
                if j > 0 {
                    assert(byte_at(old_value, j - 1) == (if j - 1 < n - i - 1 {
                        bytes@[i + 1 + j - 1] as u64
                    } else {
                        0
                    }));
                }
            }
        }
        value = (value << 8) | (c as u64);
    }
    Ok(value)
}

/// The 7 characters of a symbol code value, padded with spaces.
pub fn symbol_code_to_bytes(value: u64) -> (r: [u8; SYMBOL_CODE_MAX_LEN])
    ensures
        r@ == spec_symbol_code_bytes(value),
{
    let mut chars = [32u8; 7];
    let mut v = value;
    let mut i: usize = 0;
    assert(value >> 0u64 == value) by (bit_vector);
    while i < 7
        invariant
            0 <= i <= 7,
            chars@.len() == 7,
            v == value >> ((8 * i) as u64),
            forall|j: int| 0 <= j < i ==> chars@[j] == #[trigger] spec_symbol_code_bytes(value)[j],
            forall|j: int| i <= j < 7 ==> chars@[j] == 32,
        decreases 7 - i,
    {
        if v == 0 {
            proof {
                assert forall|j: int| i <= j < 7 implies spec_symbol_code_bytes(value)[j] == 32 by {
                    let ii = i as u64;
                    let jj = j as u64;
                    assert(value >> (8 * ii) as u64 == 0 && ii <= jj && jj < 7 ==> value >> (8
                        * jj) as u64 == 0) by (bit_vector);
                }
                assert(chars@ =~= spec_symbol_code_bytes(value));
            }
            return chars;
        }
        assert(v & 0xff < 256) by (bit_vector);
        chars[i] = (v & 0xff) as u8;
        proof {
            let ii = i as u64;
            assert((value >> (8 * ii) as u64) >> 8u64 == value >> (8 * (ii + 1)) as u64)
                by (bit_vector)
                requires
                    ii < 7,
            ;
        }
        v = v >> 8;
        i = i + 1;
    }
    assert(chars@ =~= spec_symbol_code_bytes(value));
    chars
}

/// Proves that the characters read into a symbol code come back out of it,
/// padded with spaces, and that the code read is valid.
pub proof fn lemma_symbol_code_roundtrip(s: Seq<u8>, v: u64)
    requires
        symbol_code_error(s) is None,
        symbol_code_matches(v, s),
    ensures
        spec_symbol_code_bytes(v) == s + Seq::new((7 - s.len()) as nat, |j: int| 32u8),
        spec_symbol_code_valid(v),
{
    lemma_last_non_upper_none(s, s.len() as int);
    let t = s + Seq::new((7 - s.len()) as nat, |j: int| 32u8);
    assert forall|j: int| 0 <= j < 7 implies #[trigger] spec_symbol_code_bytes(v)[j] == t[j] by {
        let jj = j as u64;
        if j < s.len() {
            assert(byte_at(v, j) == s[j] as u64);
            assert(is_upper(s[j]));
            assert((v >> (8 * jj) as u64) & 0xff != 0 ==> v >> (8 * jj) as u64 != 0)
                by (bit_vector);
        } else {
            assert forall|k: int| j <= k < 8 implies #[trigger] byte_at(v, k) == 0 by {}
            lemma_bytes_from_zero(v, jj);
        }
    }
    assert(spec_symbol_code_bytes(v) =~= t);
}

proof fn lemma_last_non_upper_none(s: Seq<u8>, i: int)
    requires
        0 <= i <= s.len(),
        last_non_upper(s, i) is None,
    ensures
        forall|j: int| 0 <= j < i ==> #[trigger] is_upper(s[j]),
    decreases i,
{
    if i > 0 {
        lemma_last_non_upper_none(s, i - 1);
    }
}

proof fn lemma_bytes_from_zero(v: u64, j: u64)
    requires
        j < 8,
        forall|k: int| j <= k < 8 ==> #[trigger] byte_at(v, k) == 0,
    ensures
        v >> (8 * j) as u64 == 0,
{
    assert(byte_at(v, 0) == 0 || j > 0);
    let b0 = byte_at(v, 0);
    let b1 = byte_at(v, 1);
    let b2 = byte_at(v, 2);
    let b3 = byte_at(v, 3);
    let b4 = byte_at(v, 4);
    let b5 = byte_at(v, 5);
    let b6 = byte_at(v, 6);
    let b7 = byte_at(v, 7);
    assert(v >> (8 * j) as u64 == 0) by (bit_vector)
        requires
            j < 8,
            j <= 0 ==> (v >> 0u64) & 0xff == 0,
            j <= 1 ==> (v >> 8u64) & 0xff == 0,
            j <= 2 ==> (v >> 16u64) & 0xff == 0,
            j <= 3 ==> (v >> 24u64) & 0xff == 0,
            j <= 4 ==> (v >> 32u64) & 0xff == 0,
            j <= 5 ==> (v >> 40u64) & 0xff == 0,
            j <= 6 ==> (v >> 48u64) & 0xff == 0,
            (v >> 56u64) & 0xff == 0,
    ;
}


/// A token symbol code: up to 7 uppercase letters, the first in the lowest byte.
#[derive(Debug, Clone, Copy, PartialEq, Eq, Structural, Hash, PartialOrd, Ord)]
pub struct SymbolCode(pub u64);

impl Default for SymbolCode {
    fn default() -> (r: Self)
        ensures
            r.0 == 0,
    {
        SymbolCode(0)
    }
}

impl From<u64> for SymbolCode {
    fn from(n: u64) -> (r: Self) {
        SymbolCode(n)
    }
}

impl vstd::std_specs::convert::FromSpecImpl<u64> for SymbolCode {
    open spec fn obeys_from_spec() -> bool {
        true
    }

    open spec fn from_spec(v: u64) -> Self {
        SymbolCode(v)
    }
}

impl From<SymbolCode> for u64 {
    fn from(s: SymbolCode) -> (r: u64) {
        s.0
    }
}

impl vstd::std_specs::convert::FromSpecImpl<SymbolCode> for u64 {
    open spec fn obeys_from_spec() -> bool {
        true
    }

    open spec fn from_spec(s: SymbolCode) -> u64 {
        s.0
    }
}

impl SymbolCode {
    /// Creates a symbol code from its 64-bit value.
    pub fn new(value: u64) -> (r: Self)
        ensures
            r.0 == value,
    {
        SymbolCode(value)
    }

    /// The 64-bit value of the symbol code.
    pub fn raw(&self) -> (r: u64)
        ensures
            r == self.0,
    {
        self.0
    }

    /// The 7 characters of the code, padded with spaces.
    pub fn to_bytes(&self) -> (r: [u8; SYMBOL_CODE_MAX_LEN])
        ensures
            r@ == spec_symbol_code_bytes(self.0),
    {
        symbol_code_to_bytes(self.0)
    }

    /// Whether the code spells only uppercase letters and spaces.
    pub fn is_valid(&self) -> (r: bool)
        ensures
            r == spec_symbol_code_valid(self.0),
    {
        let chars = symbol_code_to_bytes(self.0);
        let mut i: usize = 0;
        while i < 7
            invariant
                0 <= i <= 7,
                chars@ == spec_symbol_code_bytes(self.0),
                forall|j: int| 0 <= j < i ==> #[trigger] chars@[j] == 32 || is_upper(chars@[j]),
            decreases 7 - i,
        {
            let c = chars[i];
            if c != 32 && !(65 <= c && c <= 90) {
                assert(!(chars@[i as int] == 32 || is_upper(chars@[i as int])));
                return false;
            }
            i = i + 1;
        }
        true
    }

    /// Reads a symbol code from its text.
    pub fn from_str(value: &str) -> (r: Result<Self, ParseSymbolCodeError>)
        ensures
            match r {
                Ok(c) => symbol_code_error(value.spec_bytes()) is None && symbol_code_matches(
                    c.0,
                    value.spec_bytes(),
                ),
                Err(e) => symbol_code_error(value.spec_bytes()) == Some(e),
            },
    {
        match symbol_code_from_bytes(value.as_bytes()) {
            Ok(v) => Ok(SymbolCode(v)),
            Err(e) => Err(e),
        }
    }
}

/// The value of a symbol: its code shifted up a byte, its precision in the
/// lowest byte.
pub open spec fn spec_symbol_from_code(precision: u8, code: u64) -> u64 {
    (code << 8u64) | (precision as u64)
}

/// The symbol value made of a precision and a code value.
pub fn symbol_from_code(precision: u8, code: u64) -> (r: u64)
    ensures
        r == spec_symbol_from_code(precision, code),
{
    (code << 8) | (precision as u64)
}

/// The code value of a symbol value.
pub fn symbol_to_code(value: u64) -> (r: u64)
    ensures
        r == value >> 8u64,
{
    value >> 8
}

/// The precision of a symbol value.
pub fn symbol_to_precision(value: u64) -> (r: u8)
    ensures
        r as u64 == value & 0xff,
{
    assert(value & 0xff < 256) by (bit_vector);
    (value & 0xff) as u8
}

/// Proves that a symbol made of a precision and a code of at most 7 bytes
/// gives both back.
pub proof fn lemma_symbol_parts(precision: u8, code: u64)
    requires
        code >> 56u64 == 0,
    ensures
        spec_symbol_from_code(precision, code) >> 8u64 == code,
        spec_symbol_from_code(precision, code) & 0xff == precision as u64,
{
    let p = precision as u64;
    assert(((code << 8u64) | p) >> 8u64 == code) by (bit_vector)
        requires
            code >> 56u64 == 0,
            p < 256,
    ;
    assert(((code << 8u64) | p) & 0xff == p) by (bit_vector)
        requires
            p < 256,
    ;
}

/// A token symbol: a symbol code and the number of decimal places.
#[derive(Debug, Clone, Copy, PartialEq, Eq, Structural, Hash)]
pub struct Symbol(pub u64);

impl Default for Symbol {
    fn default() -> (r: Self)
        ensures
            r.0 == 0,
    {
        Symbol(0)
    }
}

impl Symbol {
    /// Creates a symbol from its 64-bit value.
    pub fn new(value: u64) -> (r: Self)
        ensures
            r.0 == value,
    {
        Symbol(value)
    }

    /// The symbol with the given precision and code.
    pub fn new_with_code(precision: u8, code: SymbolCode) -> (r: Self)
        ensures
            r.0 == spec_symbol_from_code(precision, code.0),
    {
        Symbol(symbol_from_code(precision, code.raw()))
    }

    /// The number of decimal places.
    pub fn precision(&self) -> (r: u8)
        ensures
            r as u64 == self.0 & 0xff,
    {
        symbol_to_precision(self.raw())
    }

    /// The symbol code.
    pub fn code(&self) -> (r: SymbolCode)
        ensures
            r.0 == self.0 >> 8u64,
    {
        SymbolCode::new(symbol_to_code(self.raw()))
    }

    /// The 64-bit value of the symbol.
    pub fn raw(&self) -> (r: u64)
        ensures
            r == self.0,
    {
        self.0
    }

    /// Whether the symbol's code is valid.
    pub fn is_valid(&self) -> (r: bool)
        ensures
            r == spec_symbol_code_valid(self.0 >> 8u64),
    {
        self.code().is_valid()
    }
}


/// A symbol given by a precision and the text of its code.
pub struct SymbolWithCode {
    pub symbol: u64,
}

impl SymbolWithCode {
    /// The symbol with the given precision whose code the text spells.
    pub fn parse(precision: u8, code: &str) -> (r: Result<Self, ParseSymbolCodeError>)
        ensures
            match r {
                Ok(s) => symbol_code_error(code.spec_bytes()) is None && exists|c: u64|
                    symbol_code_matches(c, code.spec_bytes()) && s.symbol == spec_symbol_from_code(
                        precision,
                        c,
                    ),
                Err(e) => symbol_code_error(code.spec_bytes()) == Some(e),
            },
    {
        match symbol_code_from_bytes(code.as_bytes()) {
            Ok(c) => Ok(SymbolWithCode { symbol: symbol_from_code(precision, c) }),
            Err(e) => Err(e),
        }
    }
}

} // verus!
