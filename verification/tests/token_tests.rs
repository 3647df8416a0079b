use pulse_cdt::asset::{Asset, AssetError, MAX_ASSET_AMOUNT};
use pulse_cdt::name::Name;
use pulse_cdt::store::RowWrite;
use pulse_cdt::symbol::Symbol;
use pulse_cdt::tables::{Account, CurrencyStats};
use pulse_cdt::token::{
    add_balance, close, create, get_supply, issue, open, retire, sub_balance, transfer,
    TokenError, TransferPlan,
};

const XPR4: u64 = 1380997124;
const XPR0: u64 = 1380997120;
const ISSUER: u64 = 3773036822876127232;
const BOB: u64 = 4399453885987553280;
const SELF: u64 = 12584048032615671296;

fn sym() -> Symbol {
    Symbol::new(XPR4)
}

fn xpr(amount: i64) -> Asset {
    Asset::new(amount, sym())
}

fn stats(supply: i64) -> CurrencyStats {
    CurrencyStats { supply: xpr(supply), max_supply: xpr(0), issuer: Name::new(ISSUER) }
}

fn acct(amount: i64) -> Account {
    Account { balance: xpr(amount) }
}

#[test]
fn create_token() {
    let r = create(Name::new(ISSUER), xpr(1_000_000), true, Name::new(SELF), None);
    assert_eq!(
        r,
        Ok(CurrencyStats { supply: xpr(0), max_supply: xpr(0), issuer: Name::new(ISSUER) })
    );
}

#[test]
fn create_errors() {
    let issuer = Name::new(ISSUER);
    let me = Name::new(SELF);
    assert_eq!(create(issuer, xpr(1), false, me, None), Err(TokenError::MissingAuth(me)));
    assert_eq!(
        create(issuer, Asset::new(1, Symbol::new(30724)), true, me, None),
        Err(TokenError::InvalidSymbol)
    );
    assert_eq!(create(issuer, xpr(0), true, me, None), Err(TokenError::MaxSupplyNotPositive));
    assert_eq!(create(issuer, xpr(5), true, me, Some(stats(0))), Err(TokenError::TokenExists));
}

#[test]
fn issue_adds_to_supply_and_balance() {
    let plan = issue(Name::new(ISSUER), xpr(500), 4, Some(stats(100)), true, Some(acct(7))).unwrap();
    assert_eq!(plan.stats.supply, xpr(600));
    assert_eq!(plan.balance, RowWrite::Update { payer: Name::new(0), row: acct(507) });
    let plan = issue(Name::new(ISSUER), xpr(500), 0, Some(stats(0)), true, None).unwrap();
    assert_eq!(plan.balance, RowWrite::Insert { payer: Name::new(ISSUER), row: acct(500) });
}

#[test]
fn issue_errors() {
    let issuer = Name::new(ISSUER);
    let bob = Name::new(BOB);
    assert_eq!(
        issue(issuer, Asset::new(1, Symbol::new(30724)), 0, Some(stats(0)), true, None),
        Err(TokenError::InvalidSymbol)
    );
    assert_eq!(issue(issuer, xpr(1), 257, Some(stats(0)), true, None), Err(TokenError::MemoTooLong));
    assert_eq!(issue(issuer, xpr(1), 256, None, true, None), Err(TokenError::TokenMissingForIssue));
    assert_eq!(issue(bob, xpr(1), 0, Some(stats(0)), true, None), Err(TokenError::NotIssuer));
    assert_eq!(issue(issuer, xpr(1), 0, Some(stats(0)), false, None), Err(TokenError::MissingAuth(issuer)));
    assert_eq!(issue(issuer, xpr(0), 0, Some(stats(0)), true, None), Err(TokenError::IssueNotPositive));
    assert_eq!(
        issue(issuer, Asset::new(1, Symbol::new(XPR0)), 0, Some(stats(0)), true, None),
        Err(TokenError::PrecisionMismatch)
    );
    assert_eq!(
        issue(issuer, xpr(2), 0, Some(stats(MAX_ASSET_AMOUNT - 1)), true, None),
        Err(TokenError::ExceedsSupply)
    );
    assert!(issue(issuer, xpr(1), 0, Some(stats(MAX_ASSET_AMOUNT - 1)), true, None).is_ok());
    assert_eq!(
        issue(issuer, xpr(1), 0, Some(stats(0)), true, Some(acct(i64::MAX))),
        Err(TokenError::Asset(AssetError::AddOverflow))
    );
}

#[test]
fn retire_removes_from_supply_and_balance() {
    let plan = retire(xpr(40), 0, Some(stats(100)), true, Some(acct(50))).unwrap();
    assert_eq!(plan.stats.supply, xpr(60));
    assert_eq!(plan.balance, acct(10));
}

#[test]
fn retire_errors() {
    assert_eq!(retire(xpr(1), 0, None, true, None), Err(TokenError::TokenMissing));
    assert_eq!(retire(xpr(1), 0, Some(stats(5)), false, None), Err(TokenError::MissingAuth(Name::new(ISSUER))));
    assert_eq!(retire(xpr(0), 0, Some(stats(5)), true, None), Err(TokenError::RetireNotPositive));
    assert_eq!(retire(xpr(1), 0, Some(stats(5)), true, None), Err(TokenError::NoBalance));
    assert_eq!(retire(xpr(6), 0, Some(stats(5)), true, Some(acct(5))), Err(TokenError::Overdrawn));
}

#[test]
fn transfer_moves_tokens() {
    let alice = Name::new(ISSUER);
    let bob = Name::new(BOB);
    let plan = transfer(alice, bob, xpr(30), 3, true, true, Some(stats(100)), false, Some(acct(100)), Some(acct(5))).unwrap();
    assert_eq!(
        plan,
        TransferPlan {
            from_balance: acct(70),
            to_balance: RowWrite::Update { payer: Name::new(0), row: acct(35) }
        }
    );
    let plan = transfer(alice, bob, xpr(30), 3, true, true, Some(stats(100)), true, Some(acct(100)), None).unwrap();
    assert_eq!(plan.to_balance, RowWrite::Insert { payer: bob, row: acct(30) });
    let plan = transfer(alice, bob, xpr(30), 3, true, true, Some(stats(100)), false, Some(acct(30)), None).unwrap();
    assert_eq!(plan.from_balance, acct(0));
    assert_eq!(plan.to_balance, RowWrite::Insert { payer: alice, row: acct(30) });
}

#[test]
fn transfer_conserves_balances() {
    let plan = transfer(Name::new(ISSUER), Name::new(BOB), xpr(12), 0, true, true, Some(stats(100)), false, Some(acct(40)), Some(acct(8))).unwrap();
    let to = match plan.to_balance {
        RowWrite::Update { row, .. } => row.balance.amount,
        RowWrite::Insert { row, .. } => row.balance.amount,
        RowWrite::Remove => 0,
    };
    assert_eq!(plan.from_balance.balance.amount + to, 40 + 8);
}

#[test]
fn transfer_errors() {
    let alice = Name::new(ISSUER);
    let bob = Name::new(BOB);
    let st = Some(stats(100));
    assert_eq!(transfer(alice, alice, xpr(1), 0, true, true, st, false, None, None), Err(TokenError::TransferToSelf));
    assert_eq!(transfer(alice, bob, xpr(1), 0, false, true, st, false, None, None), Err(TokenError::MissingAuth(alice)));
    assert_eq!(transfer(alice, bob, xpr(1), 0, true, false, st, false, None, None), Err(TokenError::ToAccountMissing));
    assert_eq!(transfer(alice, bob, xpr(1), 0, true, true, None, false, None, None), Err(TokenError::SymbolMissing));
    assert_eq!(
        transfer(alice, bob, Asset::new(1, Symbol::new(30724)), 0, true, true, st, false, None, None),
        Err(TokenError::InvalidQuantity)
    );
    assert_eq!(transfer(alice, bob, xpr(-1), 0, true, true, st, false, None, None), Err(TokenError::TransferNotPositive));
    assert_eq!(
        transfer(alice, bob, Asset::new(1, Symbol::new(XPR0)), 0, true, true, st, false, None, None),
        Err(TokenError::PrecisionMismatch)
    );
    assert_eq!(transfer(alice, bob, xpr(1), 300, true, true, st, false, None, None), Err(TokenError::MemoTooLong));
    assert_eq!(transfer(alice, bob, xpr(1), 0, true, true, st, false, None, None), Err(TokenError::NoBalance));
    assert_eq!(transfer(alice, bob, xpr(2), 0, true, true, st, false, Some(acct(1)), None), Err(TokenError::Overdrawn));
}

#[test]
fn open_and_close() {
    let alice = Name::new(ISSUER);
    let bob = Name::new(BOB);
    let st = Some(stats(0));
    let r = open(bob, sym(), alice, true, true, st, None).unwrap();
    assert_eq!(r, Some(RowWrite::Insert { payer: alice, row: acct(0) }));
    assert_eq!(open(bob, sym(), alice, true, true, st, Some(acct(3))), Ok(None));
    assert_eq!(close(bob, true, Some(acct(0))), Ok(RowWrite::Remove));
    assert_eq!(open(bob, sym(), alice, false, true, st, None), Err(TokenError::MissingAuth(alice)));
    assert_eq!(open(bob, sym(), alice, true, false, st, None), Err(TokenError::OwnerMissing));
    assert_eq!(open(bob, sym(), alice, true, true, None, None), Err(TokenError::SymbolMissing));
    assert_eq!(open(bob, Symbol::new(XPR0), alice, true, true, st, None), Err(TokenError::PrecisionMismatch));
    assert_eq!(close(bob, false, None), Err(TokenError::MissingAuth(bob)));
    assert_eq!(close(bob, true, None), Err(TokenError::BalanceRowMissing));
    assert_eq!(close(bob, true, Some(acct(1))), Err(TokenError::NonZeroBalance));
}

#[test]
fn balance_helpers() {
    assert_eq!(sub_balance(Some(acct(5)), xpr(5)), Ok(acct(0)));
    assert_eq!(sub_balance(None, xpr(5)), Err(TokenError::NoBalance));
    assert_eq!(add_balance(None, xpr(5), Name::new(BOB)), Ok(RowWrite::Insert { payer: Name::new(BOB), row: acct(5) }));
    assert_eq!(
        add_balance(Some(Account { balance: Asset::new(1, Symbol::new(XPR0)) }), xpr(5), Name::new(BOB)),
        Err(TokenError::Asset(AssetError::AddSymbolMismatch))
    );
    assert_eq!(get_supply(Some(stats(9))), Ok(xpr(9)));
    assert_eq!(get_supply(None), Err(TokenError::SymbolMissing));
    assert_eq!(TokenError::Overdrawn.message(), "overdrawn balance");
    assert_eq!(TokenError::Asset(AssetError::SubOverflow).message(), "subtraction overflow");
}
