use vstd::prelude::*;

use crate::symbol::{spec_symbol_code_valid, Symbol};

verus! {

/// The largest amount an asset may hold: 2^62 - 1.
pub const MAX_ASSET_AMOUNT: i64 = 4611686018427387903i64;

/// An amount of a token, in units of its smallest fraction.
#[derive(Debug, Clone, Copy, PartialEq, Eq, Structural)]
pub struct Asset {
    /// The amount of the asset
    pub amount: i64,
    /// The symbol name of the asset
    pub symbol: Symbol,
}

impl Default for Asset {
    fn default() -> (r: Self)
        ensures
            r.amount == 0,
            r.symbol.0 == 0,
    {
        Asset { amount: 0, symbol: Symbol(0) }
    }
}

/// The amounts of `a` and `b` can be added without overflow.
pub open spec fn can_add(a: i64, b: i64) -> bool {
    i64::MIN <= a + b <= i64::MAX
}

/// Rust's division of `a` by `b`, which rounds toward zero.
pub open spec fn div_toward_zero(a: int, b: int) -> int {
    if a == 0 {
        0
    } else if a > 0 && b > 0 {
        a / b
    } else if a < 0 && b < 0 {
        (-a) / (-b)
    } else if a < 0 {
        -((-a) / b)
    } else {
        -(a / (-b))
    }
}


/// Why an operation on two assets was refused.
#[derive(Debug, Clone, Copy, PartialEq, Eq, Structural)]
pub enum AssetError {
    /// The two assets have different symbols and cannot be added.
    AddSymbolMismatch,
    /// The sum does not fit in 64 bits.
    AddOverflow,
    /// The two assets have different symbols and cannot be subtracted.
    SubSymbolMismatch,
    /// The difference does not fit in 64 bits.
    SubOverflow,
}

impl AssetError {
    /// The text of the message, as a sequence of characters.
    pub open spec fn spec_message(&self) -> Seq<char> {
        match self {
            AssetError::AddSymbolMismatch => "attempt to add asset with different symbol"@,
            AssetError::AddOverflow => "addition overflow"@,
            AssetError::SubSymbolMismatch => "attempt to subtract asset with different symbol"@,
            AssetError::SubOverflow => "subtraction overflow"@,
        }
    }

    /// The message with which the operation aborts.
    pub fn message(&self) -> (r: &'static str)
        ensures
            r@ == self.spec_message(),
    {
        match self {
            AssetError::AddSymbolMismatch => "attempt to add asset with different symbol",
            AssetError::AddOverflow => "addition overflow",
            AssetError::SubSymbolMismatch => "attempt to subtract asset with different symbol",
            AssetError::SubOverflow => "subtraction overflow",
        }
    }
}

/// The asset is valid: its amount is at most `MAX_ASSET_AMOUNT` and its
/// symbol's code is made of uppercase letters and spaces.
pub open spec fn spec_asset_valid(a: Asset) -> bool {
    a.amount <= MAX_ASSET_AMOUNT && spec_symbol_code_valid(a.symbol.0 >> 8u64)
}

/// What adding `b` to `a` gives: the sum, or why it is refused.
pub open spec fn spec_try_add(a: Asset, b: Asset) -> Result<Asset, AssetError> {
    if a.symbol != b.symbol {
        Err(AssetError::AddSymbolMismatch)
    } else if !can_add(a.amount, b.amount) {
        Err(AssetError::AddOverflow)
    } else {
        Ok(Asset { amount: (a.amount + b.amount) as i64, symbol: a.symbol })
    }
}

/// What subtracting `b` from `a` gives: the difference, or why it is refused.
pub open spec fn spec_try_sub(a: Asset, b: Asset) -> Result<Asset, AssetError> {
    if a.symbol != b.symbol {
        Err(AssetError::SubSymbolMismatch)
    } else if !(i64::MIN <= a.amount - b.amount <= i64::MAX) {
        Err(AssetError::SubOverflow)
    } else {
        Ok(Asset { amount: (a.amount - b.amount) as i64, symbol: a.symbol })
    }
}

/// Subtracting what was added gives back the asset: whenever `a + b` is
/// defined, `(a + b) - b` is defined and equals `a`; and the other way round.
pub proof fn lemma_add_sub_inverse(a: Asset, b: Asset)
    ensures
        spec_try_add(a, b) matches Ok(c) ==> spec_try_sub(c, b) == Ok::<Asset, AssetError>(a),
        spec_try_sub(a, b) matches Ok(c) ==> spec_try_add(c, b) == Ok::<Asset, AssetError>(a),
{
}

impl Asset {
    /// An asset of the given amount and symbol.
    pub fn new(amount: i64, symbol: Symbol) -> (r: Self)
        ensures
            r.amount == amount,
            r.symbol == symbol,
    {
        Asset { amount, symbol }
    }

    /// No amount of the given symbol.
    pub fn zero(symbol: Symbol) -> (r: Self)
        ensures
            r.amount == 0,
            r.symbol == symbol,
    {
        Asset { amount: 0, symbol }
    }

    /// Whether the amount is at most `MAX_ASSET_AMOUNT`.
    pub fn is_amount_within_range(&self) -> (r: bool)
        ensures
            r == (self.amount <= MAX_ASSET_AMOUNT),
    {
        self.amount <= MAX_ASSET_AMOUNT
    }

    /// Check if the asset is valid: its amount is at most `MAX_ASSET_AMOUNT`
    /// and its symbol is valid.
    pub fn is_valid(&self) -> (r: bool)
        ensures
            r == spec_asset_valid(*self),
    {
        self.is_amount_within_range() && self.symbol.is_valid()
    }

    /// The sum of two assets, or the reason the addition aborts.
    pub fn try_add(self, other: Self) -> (r: Result<Asset, AssetError>)
        ensures
            r == spec_try_add(self, other),
    {
        if self.symbol != other.symbol {
            Err(AssetError::AddSymbolMismatch)
        } else {
            match self.amount.checked_add(other.amount) {
                Some(v) => Ok(Asset { amount: v, symbol: self.symbol }),
                None => Err(AssetError::AddOverflow),
            }
        }
    }

    /// The difference of two assets, or the reason the subtraction aborts.
    pub fn try_sub(self, other: Self) -> (r: Result<Asset, AssetError>)
        ensures
            r == spec_try_sub(self, other),
    {
        if self.symbol != other.symbol {
            Err(AssetError::SubSymbolMismatch)
        } else {
            match self.amount.checked_sub(other.amount) {
                Some(v) => Ok(Asset { amount: v, symbol: self.symbol }),
                None => Err(AssetError::SubOverflow),
            }
        }
    }

    /// Adds `other` to this asset; both must have the same symbol and the sum
    /// must fit.
    pub fn add_assign(&mut self, other: Self)
        requires
            old(self).symbol == other.symbol,
            can_add(old(self).amount, other.amount),
        ensures
            final(self).symbol == old(self).symbol,
            final(self).amount == old(self).amount + other.amount,
    {
        self.amount = self.amount + other.amount;
    }

    /// Subtracts `other` from this asset; both must have the same symbol and
    /// the difference must fit.
    pub fn sub_assign(&mut self, other: Self)
        requires
            old(self).symbol == other.symbol,
            i64::MIN <= old(self).amount - other.amount <= i64::MAX,
        ensures
            final(self).symbol == old(self).symbol,
            final(self).amount == old(self).amount - other.amount,
    {
        self.amount = self.amount - other.amount;
    }

    /// Multiplies this asset by `other`; both must have the same symbol and
    /// the product must fit.
    pub fn mul_assign(&mut self, other: Self)
        requires
            old(self).symbol == other.symbol,
            i64::MIN <= old(self).amount * other.amount <= i64::MAX,
        ensures
            final(self).symbol == old(self).symbol,
            final(self).amount == old(self).amount * other.amount,
    {
        self.amount = self.amount * other.amount;
    }

    /// Divides this asset by `other`, rounding toward zero; both must have the
    /// same symbol, `other` must not be zero and the quotient must fit.
    pub fn div_assign(&mut self, other: Self)
        requires
            old(self).symbol == other.symbol,
            other.amount != 0,
            !(old(self).amount == i64::MIN && other.amount == -1),
        ensures
            final(self).symbol == old(self).symbol,
            final(self).amount == div_toward_zero(old(self).amount as int, other.amount as int),
    {
        let a = self.amount as i128;
        let b = other.amount as i128;
        let q: i128 = if a == 0 {
            0
        } else if a > 0 && b > 0 {
            a / b
        } else if a < 0 && b < 0 {
            (-a) / (-b)
        } else if a < 0 {
            -((-a) / b)
        } else {
            -(a / (-b))
        };
        proof {
            let ai = a as int;
            let bi = b as int;
            if ai < 0 && bi < 0 {
                lemma_quotient_bound(-ai, -bi);
                if bi == -1 {
                    assert(ai != i64::MIN);
                } else {
                    lemma_quotient_half(-ai, -bi);
                }
            } else if ai < 0 {
                lemma_quotient_bound(-ai, bi);
            } else if ai > 0 && bi > 0 {
                lemma_quotient_bound(ai, bi);
            } else if ai > 0 {
                lemma_quotient_bound(ai, -bi);
            }
        }
        let q = q as i64;
        self.amount = q;
    }
}

proof fn lemma_quotient_bound(x: int, y: int)
    requires
        x > 0,
        y >= 1,
    ensures
        0 <= x / y <= x,
{
    assert(0 <= x / y <= x) by (nonlinear_arith)
        requires
            x > 0,
            y >= 1,
    ;
}

proof fn lemma_quotient_half(x: int, y: int)
    requires
        x > 0,
        y >= 2,
    ensures
        x / y <= x / 2,
{
    assert(x / y <= x / 2) by (nonlinear_arith)
        requires
            x > 0,
            y >= 2,
    ;
}

impl core::ops::Add for Asset {
    type Output = Asset;

    fn add(self, other: Self) -> (r: Self::Output) {
        let mut result = self;
        result.add_assign(other);
        result
    }
}

impl vstd::std_specs::ops::AddSpecImpl for Asset {
    open spec fn obeys_add_spec() -> bool {
        true
    }

    open spec fn add_req(self, other: Self) -> bool {
        self.symbol == other.symbol && can_add(self.amount, other.amount)
    }

    open spec fn add_spec(self, other: Self) -> Self {
        Asset { amount: (self.amount + other.amount) as i64, symbol: self.symbol }
    }
}

impl core::ops::Sub for Asset {
    type Output = Asset;

    fn sub(self, other: Self) -> (r: Self::Output) {
        let mut result = self;
        result.sub_assign(other);
        result
    }
}

impl vstd::std_specs::ops::SubSpecImpl for Asset {
    open spec fn obeys_sub_spec() -> bool {
        true
    }

    open spec fn sub_req(self, other: Self) -> bool {
        self.symbol == other.symbol && i64::MIN <= self.amount - other.amount <= i64::MAX
    }

    open spec fn sub_spec(self, other: Self) -> Self {
        Asset { amount: (self.amount - other.amount) as i64, symbol: self.symbol }
    }
}

impl core::ops::Mul for Asset {
    type Output = Asset;

    fn mul(self, other: Self) -> (r: Self::Output) {
        let mut result = self;
        result.mul_assign(other);
        result
    }
}

impl vstd::std_specs::ops::MulSpecImpl for Asset {
    open spec fn obeys_mul_spec() -> bool {
        true
    }

    open spec fn mul_req(self, other: Self) -> bool {
        self.symbol == other.symbol && i64::MIN <= self.amount * other.amount <= i64::MAX
    }

    open spec fn mul_spec(self, other: Self) -> Self {
        Asset { amount: (self.amount * other.amount) as i64, symbol: self.symbol }
    }
}

impl core::ops::Div for Asset {
    type Output = Asset;

    fn div(self, other: Self) -> (r: Self::Output) {
        let mut result = self;
        result.div_assign(other);
        result
    }
}

impl vstd::std_specs::ops::DivSpecImpl for Asset {
    open spec fn obeys_div_spec() -> bool {
        true
    }

    open spec fn div_req(self, other: Self) -> bool {
        self.symbol == other.symbol && other.amount != 0 && !(self.amount == i64::MIN
            && other.amount == -1)
    }

    open spec fn div_spec(self, other: Self) -> Self {
        Asset {
            amount: div_toward_zero(self.amount as int, other.amount as int) as i64,
            symbol: self.symbol,
        }
    }
}

impl core::ops::Neg for Asset {
    type Output = Asset;

    fn neg(self) -> (r: Self::Output) {
        Asset { amount: -self.amount, symbol: self.symbol }
    }
}

impl vstd::std_specs::ops::NegSpecImpl for Asset {
    open spec fn obeys_neg_spec() -> bool {
        true
    }

    open spec fn neg_req(self) -> bool {
        self.amount != i64::MIN
    }

    open spec fn neg_spec(self) -> Self {
        Asset { amount: (-self.amount) as i64, symbol: self.symbol }
    }
}

} // verus!
