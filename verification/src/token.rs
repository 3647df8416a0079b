use vstd::prelude::*;

use crate::asset::{
    spec_asset_valid, spec_try_add, spec_try_sub, Asset, AssetError, MAX_ASSET_AMOUNT,
};
use crate::name::Name;
use crate::store::RowWrite;
use crate::symbol::{spec_symbol_code_valid, Symbol};
use crate::tables::{Account, CurrencyStats};

verus! {

/// The longest memo, in bytes.
pub const MAX_MEMO_LEN: usize = 256;

/// Why a token action was refused.
#[derive(Debug, Clone, Copy, PartialEq, Eq, Structural)]
pub enum TokenError {
    /// The action needs the authority of this account.
    MissingAuth(Name),
    InvalidSymbol,
    InvalidSupply,
    MaxSupplyNotPositive,
    TokenExists,
    MemoTooLong,
    TokenMissingForIssue,
    NotIssuer,
    InvalidQuantity,
    IssueNotPositive,
    PrecisionMismatch,
    ExceedsSupply,
    TokenMissing,
    RetireNotPositive,
    TransferToSelf,
    ToAccountMissing,
    SymbolMissing,
    TransferNotPositive,
    OwnerMissing,
    BalanceRowMissing,
    NonZeroBalance,
    NoBalance,
    Overdrawn,
    /// An addition or subtraction of assets was refused.
    Asset(AssetError),
}

impl TokenError {
    /// The text of the message, as a sequence of characters.
    pub open spec fn spec_message(&self) -> Seq<char> {
        match self {
            TokenError::MissingAuth(_) => "missing required authority"@,
            TokenError::InvalidSymbol => "invalid symbol name"@,
            TokenError::InvalidSupply => "invalid supply"@,
            TokenError::MaxSupplyNotPositive => "max-supply must be positive"@,
            TokenError::TokenExists => "token with symbol already exists"@,
            TokenError::MemoTooLong => "memo has more than 256 bytes"@,
            TokenError::TokenMissingForIssue => "token with symbol does not exist, create token before issue"@,
            TokenError::NotIssuer => "tokens can only be issued to issuer account"@,
            TokenError::InvalidQuantity => "invalid quantity"@,
            TokenError::IssueNotPositive => "must issue positive quantity"@,
            TokenError::PrecisionMismatch => "symbol precision mismatch"@,
            TokenError::ExceedsSupply => "quantity exceeds available supply"@,
            TokenError::TokenMissing => "token with symbol does not exist"@,
            TokenError::RetireNotPositive => "must retire positive quantity"@,
            TokenError::TransferToSelf => "cannot transfer to self"@,
            TokenError::ToAccountMissing => "to account does not exist"@,
            TokenError::SymbolMissing => "symbol does not exist"@,
            TokenError::TransferNotPositive => "must transfer positive quantity"@,
            TokenError::OwnerMissing => "owner account does not exist"@,
            TokenError::BalanceRowMissing => "balance row already doesn't exist"@,
            TokenError::NonZeroBalance => "cannot close because the balance is not zero."@,
            TokenError::NoBalance => "no balance object found"@,
            TokenError::Overdrawn => "overdrawn balance"@,
            TokenError::Asset(e) => e.spec_message(),
        }
    }

    /// The message with which the action aborts.
    pub fn message(&self) -> (r: &'static str)
        ensures
            r@ == self.spec_message(),
    {
        match self {
            TokenError::MissingAuth(_) => "missing required authority",
            TokenError::InvalidSymbol => "invalid symbol name",
            TokenError::InvalidSupply => "invalid supply",
            TokenError::MaxSupplyNotPositive => "max-supply must be positive",
            TokenError::TokenExists => "token with symbol already exists",
            TokenError::MemoTooLong => "memo has more than 256 bytes",
            TokenError::TokenMissingForIssue => "token with symbol does not exist, create token before issue",
            TokenError::NotIssuer => "tokens can only be issued to issuer account",
            TokenError::InvalidQuantity => "invalid quantity",
            TokenError::IssueNotPositive => "must issue positive quantity",
            TokenError::PrecisionMismatch => "symbol precision mismatch",
            TokenError::ExceedsSupply => "quantity exceeds available supply",
            TokenError::TokenMissing => "token with symbol does not exist",
            TokenError::RetireNotPositive => "must retire positive quantity",
            TokenError::TransferToSelf => "cannot transfer to self",
            TokenError::ToAccountMissing => "to account does not exist",
            TokenError::SymbolMissing => "symbol does not exist",
            TokenError::TransferNotPositive => "must transfer positive quantity",
            TokenError::OwnerMissing => "owner account does not exist",
            TokenError::BalanceRowMissing => "balance row already doesn't exist",
            TokenError::NonZeroBalance => "cannot close because the balance is not zero.",
            TokenError::NoBalance => "no balance object found",
            TokenError::Overdrawn => "overdrawn balance",
            TokenError::Asset(e) => e.message(),
        }
    }
}

/// The symbol's code is made of uppercase letters and spaces.
pub open spec fn symbol_valid(sym: Symbol) -> bool {
    spec_symbol_code_valid(sym.0 >> 8u64)
}

/// The new row of a token created with the given issuer and maximum supply:
/// no supply yet, and the maximum recorded with a zero amount.
pub open spec fn spec_create(
    issuer: Name,
    max_supply: Asset,
    authorized: bool,
    self_account: Name,
    existing: Option<CurrencyStats>,
) -> Result<CurrencyStats, TokenError> {
    if !authorized {
        Err(TokenError::MissingAuth(self_account))
    } else if !symbol_valid(max_supply.symbol) {
        Err(TokenError::InvalidSymbol)
    } else if !spec_asset_valid(max_supply) {
        Err(TokenError::InvalidSupply)
    } else if max_supply.amount <= 0 {
        Err(TokenError::MaxSupplyNotPositive)
    } else if existing is Some {
        Err(TokenError::TokenExists)
    } else {
        Ok(
            CurrencyStats {
                supply: Asset { amount: 0, symbol: max_supply.symbol },
                max_supply: Asset { amount: 0, symbol: max_supply.symbol },
                issuer,
            },
        )
    }
}

/// Creates a token: the row to store in the stats table, billed to the
/// contract. `authorized` says whether the contract account `self_account`
/// signed; `existing` is the stats row already stored for the symbol.
pub fn create(
    issuer: Name,
    max_supply: Asset,
    authorized: bool,
    self_account: Name,
    existing: Option<CurrencyStats>,
) -> (r: Result<CurrencyStats, TokenError>)
    ensures
        r == spec_create(issuer, max_supply, authorized, self_account, existing),
{
    if !authorized {
        return Err(TokenError::MissingAuth(self_account));
    }
    let sym = max_supply.symbol;
    if !sym.is_valid() {
        return Err(TokenError::InvalidSymbol);
    }
    if !max_supply.is_valid() {
        return Err(TokenError::InvalidSupply);
    }
    if max_supply.amount <= 0 {
        return Err(TokenError::MaxSupplyNotPositive);
    }
    if existing.is_some() {
        return Err(TokenError::TokenExists);
    }
    Ok(
        CurrencyStats {
            supply: Asset { amount: 0, symbol: sym },
            max_supply: Asset { amount: 0, symbol: sym },
            issuer,
        },
    )
}

/// The balance row of an account after `value` is taken from it.
pub open spec fn spec_sub_balance(row: Option<Account>, value: Asset) -> Result<
    Account,
    TokenError,
> {
    match row {
        None => Err(TokenError::NoBalance),
        Some(a) => if a.balance.amount < value.amount {
            Err(TokenError::Overdrawn)
        } else {
            match spec_try_sub(a.balance, value) {
                Ok(b) => Ok(Account { balance: b }),
                Err(e) => Err(TokenError::Asset(e)),
            }
        },
    }
}

/// Takes `value` from an account's balance row, which must exist and hold
/// at least as much: the replaced row, stored with the same payer.
pub fn sub_balance(row: Option<Account>, value: Asset) -> (r: Result<Account, TokenError>)
    ensures
        r == spec_sub_balance(row, value),
{
    match row {
        None => Err(TokenError::NoBalance),
        Some(a) => {
            if a.balance.amount < value.amount {
                return Err(TokenError::Overdrawn);
            }
            match a.balance.try_sub(value) {
                Ok(b) => Ok(Account { balance: b }),
                Err(e) => Err(TokenError::Asset(e)),
            }
        },
    }
}

/// The change to an account's balance row when `value` is added to it: a new
/// row billed to `payer`, or the row replaced with the same payer.
pub open spec fn spec_add_balance(row: Option<Account>, value: Asset, payer: Name) -> Result<
    RowWrite<Account>,
    TokenError,
> {
    match row {
        None => Ok(RowWrite::Insert { payer, row: Account { balance: value } }),
        Some(a) => match spec_try_add(a.balance, value) {
            Ok(b) => Ok(RowWrite::Update { payer: Name(0), row: Account { balance: b } }),
            Err(e) => Err(TokenError::Asset(e)),
        },
    }
}

/// Adds `value` to an account's balance row, creating the row when needed.
pub fn add_balance(row: Option<Account>, value: Asset, payer: Name) -> (r: Result<
    RowWrite<Account>,
    TokenError,
>)
    ensures
        r == spec_add_balance(row, value, payer),
{
    match row {
        None => Ok(RowWrite::Insert { payer, row: Account { balance: value } }),
        Some(a) => match a.balance.try_add(value) {
            Ok(b) => Ok(RowWrite::Update { payer: Name(0), row: Account { balance: b } }),
            Err(e) => Err(TokenError::Asset(e)),
        },
    }
}

/// What an issue changes: the token's stats row and the issuer's balance row.
#[derive(Debug, Clone, Copy, PartialEq, Eq, Structural)]
pub struct IssuePlan {
    pub stats: CurrencyStats,
    pub balance: RowWrite<Account>,
}

/// The outcome of issuing `quantity` to `to`.
pub open spec fn spec_issue(
    to: Name,
    quantity: Asset,
    memo_len: usize,
    stats: Option<CurrencyStats>,
    issuer_authorized: bool,
    balance: Option<Account>,
) -> Result<IssuePlan, TokenError> {
    if !symbol_valid(quantity.symbol) {
        Err(TokenError::InvalidSymbol)
    } else if memo_len > MAX_MEMO_LEN {
        Err(TokenError::MemoTooLong)
    } else {
        match stats {
            None => Err(TokenError::TokenMissingForIssue),
            Some(st) => if to != st.issuer {
                Err(TokenError::NotIssuer)
            } else if !issuer_authorized {
                Err(TokenError::MissingAuth(st.issuer))
            } else if !spec_asset_valid(quantity) {
                Err(TokenError::InvalidQuantity)
            } else if quantity.amount <= 0 {
                Err(TokenError::IssueNotPositive)
            } else if quantity.symbol != st.supply.symbol {
                Err(TokenError::PrecisionMismatch)
            } else if quantity.amount + st.supply.amount > MAX_ASSET_AMOUNT {
                Err(TokenError::ExceedsSupply)
            } else {
                match spec_add_balance(balance, quantity, st.issuer) {
                    Err(e) => Err(e),
                    Ok(w) => Ok(
                        IssuePlan {
                            stats: CurrencyStats {
                                supply: Asset {
                                    amount: (st.supply.amount + quantity.amount) as i64,
                                    symbol: st.supply.symbol,
                                },
                                ..st
                            },
                            balance: w,
                        },
                    ),
                }
            },
        }
    }
}

/// Issues new tokens to their issuer. `stats` is the token's stats row,
/// `issuer_authorized` whether the issuer signed, and `balance` the issuer's
/// balance row for the token.
pub fn issue(
    to: Name,
    quantity: Asset,
    memo_len: usize,
    stats: Option<CurrencyStats>,
    issuer_authorized: bool,
    balance: Option<Account>,
) -> (r: Result<IssuePlan, TokenError>)
    ensures
        r == spec_issue(to, quantity, memo_len, stats, issuer_authorized, balance),
{
    if !quantity.symbol.is_valid() {
        return Err(TokenError::InvalidSymbol);
    }
    if memo_len > MAX_MEMO_LEN {
        return Err(TokenError::MemoTooLong);
    }
    let st = match stats {
        None => {
            return Err(TokenError::TokenMissingForIssue);
        },
        Some(st) => st,
    };
    if to != st.issuer {
        return Err(TokenError::NotIssuer);
    }
    if !issuer_authorized {
        return Err(TokenError::MissingAuth(st.issuer));
    }
    if !quantity.is_valid() {
        return Err(TokenError::InvalidQuantity);
    }
    if quantity.amount <= 0 {
        return Err(TokenError::IssueNotPositive);
    }
    if quantity.symbol != st.supply.symbol {
        return Err(TokenError::PrecisionMismatch);
    }
    if quantity.amount as i128 + st.supply.amount as i128 > MAX_ASSET_AMOUNT as i128 {
        return Err(TokenError::ExceedsSupply);
    }
    let w = match add_balance(balance, quantity, st.issuer) {
        Err(e) => {
            return Err(e);
        },
        Ok(w) => w,
    };
    let supply = Asset { amount: st.supply.amount + quantity.amount, symbol: st.supply.symbol };
    Ok(IssuePlan { stats: CurrencyStats { supply, max_supply: st.max_supply, issuer: st.issuer }, balance: w })
}

/// What a retirement changes: the token's stats row and the issuer's balance.
#[derive(Debug, Clone, Copy, PartialEq, Eq, Structural)]
pub struct RetirePlan {
    pub stats: CurrencyStats,
    pub balance: Account,
}

/// The outcome of retiring `quantity` from the issuer's balance.
pub open spec fn spec_retire(
    quantity: Asset,
    memo_len: usize,
    stats: Option<CurrencyStats>,
    issuer_authorized: bool,
    balance: Option<Account>,
) -> Result<RetirePlan, TokenError> {
    if !symbol_valid(quantity.symbol) {
        Err(TokenError::InvalidSymbol)
    } else if memo_len > MAX_MEMO_LEN {
        Err(TokenError::MemoTooLong)
    } else {
        match stats {
            None => Err(TokenError::TokenMissing),
            Some(st) => if !issuer_authorized {
                Err(TokenError::MissingAuth(st.issuer))
            } else if !spec_asset_valid(quantity) {
                Err(TokenError::InvalidQuantity)
            } else if quantity.amount <= 0 {
                Err(TokenError::RetireNotPositive)
            } else if quantity.symbol != st.supply.symbol {
                Err(TokenError::PrecisionMismatch)
            } else {
                match spec_try_sub(st.supply, quantity) {
                    Err(e) => Err(TokenError::Asset(e)),
                    Ok(supply) => match spec_sub_balance(balance, quantity) {
                        Err(e) => Err(e),
                        Ok(b) => Ok(
                            RetirePlan { stats: CurrencyStats { supply, ..st }, balance: b },
                        ),
                    },
                }
            },
        }
    }
}

/// Takes tokens out of circulation from the issuer's balance.
pub fn retire(
    quantity: Asset,
    memo_len: usize,
    stats: Option<CurrencyStats>,
    issuer_authorized: bool,
    balance: Option<Account>,
) -> (r: Result<RetirePlan, TokenError>)
    ensures
        r == spec_retire(quantity, memo_len, stats, issuer_authorized, balance),
{
    if !quantity.symbol.is_valid() {
        return Err(TokenError::InvalidSymbol);
    }
    if memo_len > MAX_MEMO_LEN {
        return Err(TokenError::MemoTooLong);
    }
    let st = match stats {
        None => {
            return Err(TokenError::TokenMissing);
        },
        Some(st) => st,
    };
    if !issuer_authorized {
        return Err(TokenError::MissingAuth(st.issuer));
    }
    if !quantity.is_valid() {
        return Err(TokenError::InvalidQuantity);
    }
    if quantity.amount <= 0 {
        return Err(TokenError::RetireNotPositive);
    }
    if quantity.symbol != st.supply.symbol {
        return Err(TokenError::PrecisionMismatch);
    }
    let supply = match st.supply.try_sub(quantity) {
        Err(e) => {
            return Err(TokenError::Asset(e));
        },
        Ok(s) => s,
    };
    match sub_balance(balance, quantity) {
        Err(e) => Err(e),
        Ok(b) => Ok(RetirePlan { stats: CurrencyStats { supply, max_supply: st.max_supply, issuer: st.issuer }, balance: b }),
    }
}

/// What a transfer changes: the sender's balance row and the receiver's.
#[derive(Debug, Clone, Copy, PartialEq, Eq, Structural)]
pub struct TransferPlan {
    pub from_balance: Account,
    pub to_balance: RowWrite<Account>,
}

/// The outcome of transferring `quantity` from `from` to `to`.
pub open spec fn spec_transfer(
    from: Name,
    to: Name,
    quantity: Asset,
    memo_len: usize,
    from_authorized: bool,
    to_exists: bool,
    stats: Option<CurrencyStats>,
    to_authorized: bool,
    from_balance: Option<Account>,
    to_balance: Option<Account>,
) -> Result<TransferPlan, TokenError> {
    if from == to {
        Err(TokenError::TransferToSelf)
    } else if !from_authorized {
        Err(TokenError::MissingAuth(from))
    } else if !to_exists {
        Err(TokenError::ToAccountMissing)
    } else {
        match stats {
            None => Err(TokenError::SymbolMissing),
            Some(st) => if !spec_asset_valid(quantity) {
                Err(TokenError::InvalidQuantity)
            } else if quantity.amount <= 0 {
                Err(TokenError::TransferNotPositive)
            } else if quantity.symbol != st.supply.symbol {
                Err(TokenError::PrecisionMismatch)
            } else if memo_len > MAX_MEMO_LEN {
                Err(TokenError::MemoTooLong)
            } else {
                let payer = if to_authorized {
                    to
                } else {
                    from
                };
                match spec_sub_balance(from_balance, quantity) {
                    Err(e) => Err(e),
                    Ok(fb) => match spec_add_balance(to_balance, quantity, payer) {
                        Err(e) => Err(e),
                        Ok(tb) => Ok(TransferPlan { from_balance: fb, to_balance: tb }),
                    },
                }
            },
        }
    }
}

/// Moves tokens between accounts. `to_exists` says whether the receiver's
/// account exists, `to_authorized` whether the receiver signed too (then it
/// pays for a new balance row), and the balances are the two accounts' rows.
pub fn transfer(
    from: Name,
    to: Name,
    quantity: Asset,
    memo_len: usize,
    from_authorized: bool,
    to_exists: bool,
    stats: Option<CurrencyStats>,
    to_authorized: bool,
    from_balance: Option<Account>,
    to_balance: Option<Account>,
) -> (r: Result<TransferPlan, TokenError>)
    ensures
        r == spec_transfer(
            from,
            to,
            quantity,
            memo_len,
            from_authorized,
            to_exists,
            stats,
            to_authorized,
            from_balance,
            to_balance,
        ),
{
    if from == to {
        return Err(TokenError::TransferToSelf);
    }
    if !from_authorized {
        return Err(TokenError::MissingAuth(from));
    }
    if !to_exists {
        return Err(TokenError::ToAccountMissing);
    }
    let st = match stats {
        None => {
            return Err(TokenError::SymbolMissing);
        },
        Some(st) => st,
    };
    if !quantity.is_valid() {
        return Err(TokenError::InvalidQuantity);
    }
    if quantity.amount <= 0 {
        return Err(TokenError::TransferNotPositive);
    }
    if quantity.symbol != st.supply.symbol {
        return Err(TokenError::PrecisionMismatch);
    }
    if memo_len > MAX_MEMO_LEN {
        return Err(TokenError::MemoTooLong);
    }
    let payer = if to_authorized {
        to
    } else {
        from
    };
    let fb = match sub_balance(from_balance, quantity) {
        Err(e) => {
            return Err(e);
        },
        Ok(fb) => fb,
    };
    match add_balance(to_balance, quantity, payer) {
        Err(e) => Err(e),
        Ok(tb) => Ok(TransferPlan { from_balance: fb, to_balance: tb }),
    }
}

/// The outcome of opening a zero balance of `symbol` for `owner`: the new
/// row billed to `ram_payer`, or nothing when the row exists.
pub open spec fn spec_open(
    owner: Name,
    symbol: Symbol,
    ram_payer: Name,
    payer_authorized: bool,
    owner_exists: bool,
    stats: Option<CurrencyStats>,
    existing: Option<Account>,
) -> Result<Option<RowWrite<Account>>, TokenError> {
    if !payer_authorized {
        Err(TokenError::MissingAuth(ram_payer))
    } else if !owner_exists {
        Err(TokenError::OwnerMissing)
    } else {
        match stats {
            None => Err(TokenError::SymbolMissing),
            Some(st) => if st.supply.symbol != symbol {
                Err(TokenError::PrecisionMismatch)
            } else if existing is Some {
                Ok(None)
            } else {
                Ok(
                    Some(
                        RowWrite::Insert {
                            payer: ram_payer,
                            row: Account { balance: Asset { amount: 0, symbol } },
                        },
                    ),
                )
            },
        }
    }
}

/// Opens a zero balance row, paid by `ram_payer`, when none exists.
pub fn open(
    owner: Name,
    symbol: Symbol,
    ram_payer: Name,
    payer_authorized: bool,
    owner_exists: bool,
    stats: Option<CurrencyStats>,
    existing: Option<Account>,
) -> (r: Result<Option<RowWrite<Account>>, TokenError>)
    ensures
        r == spec_open(owner, symbol, ram_payer, payer_authorized, owner_exists, stats, existing),
{
    if !payer_authorized {
        return Err(TokenError::MissingAuth(ram_payer));
    }
    if !owner_exists {
        return Err(TokenError::OwnerMissing);
    }
    let st = match stats {
        None => {
            return Err(TokenError::SymbolMissing);
        },
        Some(st) => st,
    };
    if st.supply.symbol != symbol {
        return Err(TokenError::PrecisionMismatch);
    }
    if existing.is_some() {
        return Ok(None);
    }
    Ok(Some(RowWrite::Insert { payer: ram_payer, row: Account { balance: Asset { amount: 0, symbol } } }))
}

/// The outcome of closing an owner's balance row: it must exist and be zero.
pub open spec fn spec_close(owner: Name, owner_authorized: bool, existing: Option<Account>) -> Result<
    RowWrite<Account>,
    TokenError,
> {
    if !owner_authorized {
        Err(TokenError::MissingAuth(owner))
    } else {
        match existing {
            None => Err(TokenError::BalanceRowMissing),
            Some(a) => if a.balance.amount != 0 {
                Err(TokenError::NonZeroBalance)
            } else {
                Ok(RowWrite::Remove)
            },
        }
    }
}

/// Closes an empty balance row.
pub fn close(owner: Name, owner_authorized: bool, existing: Option<Account>) -> (r: Result<
    RowWrite<Account>,
    TokenError,
>)
    ensures
        r == spec_close(owner, owner_authorized, existing),
{
    if !owner_authorized {
        return Err(TokenError::MissingAuth(owner));
    }
    match existing {
        None => Err(TokenError::BalanceRowMissing),
        Some(a) => {
            if a.balance.amount != 0 {
                Err(TokenError::NonZeroBalance)
            } else {
                Ok(RowWrite::Remove)
            }
        },
    }
}

/// The supply of a token, from its stats row, which must exist.
pub fn get_supply(stats: Option<CurrencyStats>) -> (r: Result<Asset, TokenError>)
    ensures
        match stats {
            Some(st) => r == Ok::<Asset, TokenError>(st.supply),
            None => r == Err::<Asset, TokenError>(TokenError::SymbolMissing),
        },
{
    match stats {
        Some(st) => Ok(st.supply),
        None => Err(TokenError::SymbolMissing),
    }
}


/// The amount an account holds in a balance row, zero when there is none.
pub open spec fn held(row: Option<Account>) -> int {
    match row {
        Some(a) => a.balance.amount as int,
        None => 0,
    }
}

/// The amount a balance row holds after a change, zero when it is removed.
pub open spec fn held_after(w: RowWrite<Account>) -> int {
    match w {
        RowWrite::Insert { row, .. } => row.balance.amount as int,
        RowWrite::Update { row, .. } => row.balance.amount as int,
        RowWrite::Remove => 0,
    }
}

/// A transfer moves tokens and creates none: the two balances together hold
/// what they held before, the sender keeps a balance of at least zero, and
/// the receiver gains exactly the quantity.
pub proof fn lemma_transfer_conserves(
    from: Name,
    to: Name,
    quantity: Asset,
    memo_len: usize,
    from_authorized: bool,
    to_exists: bool,
    stats: Option<CurrencyStats>,
    to_authorized: bool,
    from_balance: Option<Account>,
    to_balance: Option<Account>,
    plan: TransferPlan,
)
    requires
        spec_transfer(
            from,
            to,
            quantity,
            memo_len,
            from_authorized,
            to_exists,
            stats,
            to_authorized,
            from_balance,
            to_balance,
        ) == Ok::<TransferPlan, TokenError>(plan),
    ensures
        plan.from_balance.balance.amount + held_after(plan.to_balance) == held(from_balance) + held(
            to_balance,
        ),
        plan.from_balance.balance.amount == held(from_balance) - quantity.amount,
        held_after(plan.to_balance) == held(to_balance) + quantity.amount,
        plan.from_balance.balance.amount >= 0,
{
}

/// A transfer is carried out when everything it checks holds: two different
/// accounts, the sender signed, the receiver exists, the token exists with
/// the quantity's symbol, the quantity is valid and positive, the memo is
/// short enough, and the sender's balance of that token covers the quantity;
/// the receiver's balance, if it has one, must be able to take the quantity.
/// Then the sender's balance drops by the quantity and the receiver's rises
/// by it (from zero when it had no row).
pub proof fn lemma_transfer_succeeds(
    from: Name,
    to: Name,
    quantity: Asset,
    memo_len: usize,
    to_exists: bool,
    stats: Option<CurrencyStats>,
    to_authorized: bool,
    from_balance: Option<Account>,
    to_balance: Option<Account>,
)
    requires
        from != to,
        to_exists,
        stats matches Some(st) && st.supply.symbol == quantity.symbol,
        spec_asset_valid(quantity),
        quantity.amount > 0,
        memo_len <= MAX_MEMO_LEN,
        from_balance matches Some(a) && a.balance.symbol == quantity.symbol && a.balance.amount
            >= quantity.amount,
        to_balance matches Some(b) ==> b.balance.symbol == quantity.symbol && b.balance.amount
            + quantity.amount <= i64::MAX,
    ensures
        spec_transfer(
            from,
            to,
            quantity,
            memo_len,
            true,
            to_exists,
            stats,
            to_authorized,
            from_balance,
            to_balance,
        ) matches Ok(plan) && plan.from_balance.balance.amount == held(from_balance)
            - quantity.amount && held_after(plan.to_balance) == held(to_balance) + quantity.amount,
{
}

/// Issuing adds the quantity both to the supply and to the issuer's balance,
/// and the supply never passes the largest asset amount.
pub proof fn lemma_issue_adds(
    to: Name,
    quantity: Asset,
    memo_len: usize,
    stats: Option<CurrencyStats>,
    issuer_authorized: bool,
    balance: Option<Account>,
    plan: IssuePlan,
)
    requires
        spec_issue(to, quantity, memo_len, stats, issuer_authorized, balance) == Ok::<
            IssuePlan,
            TokenError,
        >(plan),
    ensures
        stats is Some,
        plan.stats.supply.amount == stats.unwrap().supply.amount + quantity.amount,
        plan.stats.supply.amount <= MAX_ASSET_AMOUNT,
        plan.stats.issuer == stats.unwrap().issuer,
        plan.stats.max_supply == stats.unwrap().max_supply,
        held_after(plan.balance) == held(balance) + quantity.amount,
        quantity.amount > 0,
{
}

/// Retiring takes the quantity both from the supply and from the issuer's
/// balance.
pub proof fn lemma_retire_removes(
    quantity: Asset,
    memo_len: usize,
    stats: Option<CurrencyStats>,
    issuer_authorized: bool,
    balance: Option<Account>,
    plan: RetirePlan,
)
    requires
        spec_retire(quantity, memo_len, stats, issuer_authorized, balance) == Ok::<
            RetirePlan,
            TokenError,
        >(plan),
    ensures
        stats is Some,
        plan.stats.supply.amount == stats.unwrap().supply.amount - quantity.amount,
        plan.balance.balance.amount == held(balance) - quantity.amount,
        plan.balance.balance.amount >= 0,
        quantity.amount > 0,
{
}

/// A balance opened where none existed is empty, and closing it right after
/// succeeds and removes it.
pub proof fn lemma_open_then_close(
    owner: Name,
    symbol: Symbol,
    ram_payer: Name,
    payer_authorized: bool,
    owner_exists: bool,
    stats: Option<CurrencyStats>,
    row: Account,
    payer: Name,
)
    requires
        spec_open(owner, symbol, ram_payer, payer_authorized, owner_exists, stats, None) == Ok::<
            Option<RowWrite<Account>>,
            TokenError,
        >(Some(RowWrite::Insert { payer, row })),
    ensures
        row.balance.amount == 0,
        row.balance.symbol == symbol,
        spec_close(owner, true, Some(row)) == Ok::<RowWrite<Account>, TokenError>(RowWrite::Remove),
{
}


/// Creating a token records it with no supply: creation goes through exactly
/// when the contract signed, the symbol and the maximum supply are valid, the
/// maximum is positive and the token does not exist yet; the new row has the
/// given issuer and a zero supply in the token's symbol, and records the
/// maximum supply's symbol with a zero amount.
pub proof fn lemma_create_records_token(
    issuer: Name,
    max_supply: Asset,
    authorized: bool,
    self_account: Name,
    existing: Option<CurrencyStats>,
)
    ensures
        spec_create(issuer, max_supply, authorized, self_account, existing) is Ok <==> (authorized
            && spec_asset_valid(max_supply) && max_supply.amount > 0 && existing is None),
        spec_create(issuer, max_supply, authorized, self_account, existing) matches Ok(st) ==> st.issuer
            == issuer && st.supply.amount == 0 && st.supply.symbol == max_supply.symbol
            && st.max_supply.symbol == max_supply.symbol && st.max_supply.amount == 0,
{
}

} // verus!
