use pulse_cdt::asset::{Asset, AssetError};
use pulse_cdt::authority::{BlockHeader, BlockSigningAuthority, KeyWeight, PermissionLevel};
use pulse_cdt::dispatch::{
    bios_route, msig_route, route, token_route, BiosAction, DispatchError, MsigAction, SystemAction,
    TokenAction, ONERROR,
};
use pulse_cdt::keys::{FixedBytes, PublicKey};
use pulse_cdt::name::Name;
use pulse_cdt::store::RowWrite;
use pulse_cdt::symbol::Symbol;
use pulse_cdt::system::{
    apply_conversion, buyram_fee, buyram_settle, changebw, conversion, core_symbol,
    core_symbol_account, delegatebw, init, newaccount, onblock, refund, regproducer,
    regproducer2, regproxy, setram, signing_key, undelegatebw, unregprod, update_ram_supply,
    update_voting_power, Conversion, ProxyChange, RamSupply, ResourceLimits, SystemError,
    RAM_GIFT_BYTES, STAKE_ACCOUNT, abi_hash_write, activate_stake, check_propagation,
    check_vote_targets, check_voter, vote_weeks, votepay_threshold, MIN_ACTIVATED_STAKE,
    THREE_DAYS_US, ACTIVE_PERMISSION, OPEN_ACTION, RAMCORE_SYMBOL, RAM_SYMBOL, REX_ACCOUNT,
    TOKEN_ACCOUNT, registration,
};
use pulse_cdt::tables::{DelegatedBandwidth, GlobalStateRAM, RefundRequest, UserResources};
use pulse_cdt::time::{BlockTimestamp, TimePoint, TimePointSec};

const XPR4: u64 = 1380997124;
const ALICE: u64 = 3773036822876127232;
const BOB: u64 = 4399453885987553280;
const SELF: u64 = 12584048018849792000;

fn sym() -> Symbol {
    Symbol::new(XPR4)
}

fn xpr(amount: i64) -> Asset {
    Asset::new(amount, sym())
}

fn limits() -> ResourceLimits {
    ResourceLimits { ram_bytes: 5000, net_weight: 1, cpu_weight: 2 }
}

fn now() -> TimePointSec {
    TimePointSec::new(1_000)
}

#[test]
fn delegate_to_self_from_scratch() {
    let alice = Name::new(ALICE);
    let plan = changebw(alice, alice, xpr(10), xpr(20), false, true, None, None, None, limits(), None, now(), sym()).unwrap();
    assert_eq!(plan.staker, alice);
    assert_eq!(
        plan.delegated,
        Some(RowWrite::Insert {
            payer: alice,
            row: DelegatedBandwidth { from: alice, to: alice, net_weight: xpr(10), cpu_weight: xpr(20) }
        })
    );
    assert_eq!(
        plan.totals,
        Some(RowWrite::Insert {
            payer: alice,
            row: UserResources { owner: alice, net_weight: xpr(10), cpu_weight: xpr(20), ram_bytes: 0 }
        })
    );
    assert_eq!(plan.limits, Some(ResourceLimits { ram_bytes: 5000, net_weight: 10, cpu_weight: 20 }));
    assert_eq!(plan.refund, None);
    assert!(!plan.schedule_refund);
    assert_eq!(plan.stake_transfer, Some(xpr(30)));
    assert_eq!(plan.voting_delta, xpr(30));
}

#[test]
fn ram_limit_includes_gift() {
    let alice = Name::new(ALICE);
    let tot = UserResources { owner: alice, net_weight: xpr(1), cpu_weight: xpr(1), ram_bytes: 10_000 };
    let plan = changebw(alice, alice, xpr(1), xpr(0), false, true, None, Some(tot), None, limits(), None, now(), sym()).unwrap();
    assert_eq!(plan.limits, Some(ResourceLimits { ram_bytes: 10_000 + RAM_GIFT_BYTES, net_weight: 2, cpu_weight: 1 }));
    let managed = changebw(alice, alice, xpr(1), xpr(0), false, true, None, Some(tot), Some(1 | 2), limits(), None, now(), sym()).unwrap();
    assert_eq!(managed.limits, Some(ResourceLimits { ram_bytes: 5000, net_weight: 1, cpu_weight: 1 }));
    let none = changebw(alice, alice, xpr(1), xpr(0), false, true, None, Some(tot), Some(2 | 4), limits(), None, now(), sym()).unwrap();
    assert_eq!(none.limits, None);
}

#[test]
fn undelegate_creates_refund() {
    let alice = Name::new(ALICE);
    let del = DelegatedBandwidth { from: alice, to: alice, net_weight: xpr(10), cpu_weight: xpr(20) };
    let tot = UserResources { owner: alice, net_weight: xpr(10), cpu_weight: xpr(20), ram_bytes: 100 };
    let plan = changebw(alice, alice, xpr(-10), xpr(-5), false, true, Some(del), Some(tot), None, limits(), None, now(), sym()).unwrap();
    assert_eq!(
        plan.delegated,
        Some(RowWrite::Update {
            payer: Name::new(0),
            row: DelegatedBandwidth { from: alice, to: alice, net_weight: xpr(0), cpu_weight: xpr(15) }
        })
    );
    assert_eq!(
        plan.refund,
        Some(RowWrite::Insert {
            payer: alice,
            row: RefundRequest { owner: alice, request_time: now(), net_amount: xpr(10), cpu_amount: xpr(5) }
        })
    );
    assert!(plan.schedule_refund);
    assert_eq!(plan.stake_transfer, None);
    assert_eq!(plan.voting_delta, xpr(-15));
}

#[test]
fn restaking_takes_from_refund_first() {
    let alice = Name::new(ALICE);
    let pending = RefundRequest { owner: alice, request_time: TimePointSec::new(5), net_amount: xpr(10), cpu_amount: xpr(5) };
    let plan = changebw(alice, alice, xpr(4), xpr(8), false, true, None, None, None, limits(), Some(pending), now(), sym()).unwrap();
    assert_eq!(
        plan.refund,
        Some(RowWrite::Update {
            payer: Name::new(0),
            row: RefundRequest { owner: alice, request_time: TimePointSec::new(5), net_amount: xpr(6), cpu_amount: xpr(0) }
        })
    );
    assert_eq!(plan.stake_transfer, Some(xpr(3)));
    let refund_drop = (10 + 5) - (6 + 0);
    assert_eq!(3 + refund_drop, 4 + 8);
    let all = changebw(alice, alice, xpr(10), xpr(5), false, true, None, None, None, limits(), Some(pending), now(), sym()).unwrap();
    assert_eq!(all.refund, Some(RowWrite::Remove));
    assert!(!all.schedule_refund);
    assert_eq!(all.stake_transfer, None);
}

#[test]
fn delegating_to_another_account() {
    let alice = Name::new(ALICE);
    let bob = Name::new(BOB);
    let plan = changebw(alice, bob, xpr(3), xpr(4), false, true, None, None, None, limits(), None, now(), sym()).unwrap();
    assert_eq!(plan.staker, alice);
    assert_eq!(plan.refund, None);
    assert_eq!(plan.stake_transfer, Some(xpr(7)));
    let given = changebw(alice, bob, xpr(3), xpr(4), true, true, None, None, None, limits(), None, now(), sym()).unwrap();
    assert_eq!(given.staker, bob);
    let from_stake = changebw(Name::new(STAKE_ACCOUNT), bob, xpr(3), xpr(4), false, true, None, None, None, limits(), None, now(), sym()).unwrap();
    assert_eq!(from_stake.stake_transfer, None);
}

#[test]
fn changebw_errors() {
    let alice = Name::new(ALICE);
    let l = limits();
    assert_eq!(changebw(alice, alice, xpr(1), xpr(1), false, false, None, None, None, l, None, now(), sym()), Err(SystemError::MissingAuth(alice)));
    assert_eq!(changebw(alice, alice, xpr(0), xpr(0), false, true, None, None, None, l, None, now(), sym()), Err(SystemError::ZeroStake));
    assert_eq!(changebw(alice, alice, xpr(5), xpr(-1), false, true, None, None, None, l, None, now(), sym()), Err(SystemError::OppositeSigns));
    assert_eq!(
        changebw(alice, alice, xpr(1), Asset::new(1, Symbol::new(1380997120)), false, true, None, None, None, l, None, now(), sym()),
        Err(SystemError::Asset(AssetError::AddSymbolMismatch))
    );
    assert_eq!(changebw(alice, alice, xpr(-1), xpr(0), false, true, None, None, None, l, None, now(), sym()), Err(SystemError::InsufficientNet));
    assert_eq!(changebw(alice, alice, xpr(0), xpr(-1), false, true, None, None, None, l, None, now(), sym()), Err(SystemError::InsufficientCpu));
    let del = DelegatedBandwidth { from: alice, to: alice, net_weight: xpr(5), cpu_weight: xpr(5) };
    assert_eq!(changebw(alice, alice, xpr(-1), xpr(0), false, true, Some(del), None, None, l, None, now(), sym()), Err(SystemError::InsufficientTotalNet));
    assert_eq!(changebw(alice, alice, xpr(0), xpr(-1), false, true, Some(del), None, None, l, None, now(), sym()), Err(SystemError::InsufficientTotalCpu));
}

#[test]
fn delegatebw_and_undelegatebw_checks() {
    let alice = Name::new(ALICE);
    let bob = Name::new(BOB);
    let l = limits();
    assert_eq!(delegatebw(alice, alice, xpr(1), xpr(-1), false, true, None, None, None, l, None, now(), sym()), Err(SystemError::MustStakePositive));
    assert_eq!(delegatebw(alice, alice, xpr(0), xpr(0), false, true, None, None, None, l, None, now(), sym()), Err(SystemError::MustStakePositive));
    assert_eq!(delegatebw(alice, alice, xpr(1), xpr(0), true, true, None, None, None, l, None, now(), sym()), Err(SystemError::TransferToSelf));
    assert_eq!(
        delegatebw(alice, alice, xpr(1), Asset::new(1, Symbol::new(1380997120)), false, true, None, None, None, l, None, now(), sym()),
        Err(SystemError::AssetCompareMismatch)
    );
    assert!(delegatebw(alice, bob, xpr(1), xpr(0), true, true, None, None, None, l, None, now(), sym()).is_ok());
    assert_eq!(undelegatebw(alice, alice, xpr(1), xpr(1), false, true, None, None, None, l, None, now(), sym()), Err(SystemError::NotActivated));
    assert_eq!(undelegatebw(alice, alice, xpr(0), xpr(0), true, true, None, None, None, l, None, now(), sym()), Err(SystemError::MustUnstakePositive));
    let del = DelegatedBandwidth { from: alice, to: alice, net_weight: xpr(5), cpu_weight: xpr(5) };
    let tot = UserResources { owner: alice, net_weight: xpr(5), cpu_weight: xpr(5), ram_bytes: 0 };
    let plan = undelegatebw(alice, alice, xpr(5), xpr(5), true, true, Some(del), Some(tot), None, l, None, now(), sym()).unwrap();
    assert_eq!(plan.delegated, Some(RowWrite::Remove));
    assert_eq!(plan.totals, Some(RowWrite::Remove));
    assert_eq!(plan.voting_delta, xpr(-10));
}

#[test]
fn refund_claims() {
    let alice = Name::new(ALICE);
    let r = RefundRequest { owner: alice, request_time: TimePointSec::new(900), net_amount: xpr(7), cpu_amount: xpr(3) };
    assert_eq!(refund(alice, true, Some(r), now()), Ok((alice, xpr(7))));
    assert_eq!(refund(alice, true, Some(r), TimePointSec::new(899)), Err(SystemError::RefundNotAvailable));
    assert_eq!(refund(alice, true, None, now()), Err(SystemError::RefundNotFound));
    assert_eq!(refund(alice, false, Some(r), now()), Err(SystemError::MissingAuth(alice)));
}

#[test]
fn ram_size_and_supply() {
    let me = Name::new(SELF);
    let base = Asset::new(1000, Symbol::new(0));
    assert_eq!(setram(2000, true, me, 1500, 100, base), Ok((2000, Asset::new(1500, Symbol::new(0)))));
    assert_eq!(setram(1500, true, me, 1500, 100, base), Err(SystemError::RamOnlyIncrease));
    assert_eq!(setram(1 << 50, true, me, 1500, 100, base), Err(SystemError::RamUnrealistic));
    assert_eq!(setram(2000, true, me, 1500, 2000, base), Err(SystemError::RamBelowReserved));
    assert_eq!(setram(2000, false, me, 1500, 100, base), Err(SystemError::MissingAuth(me)));
    let big = Asset::new(i64::MAX - 500, Symbol::new(0));
    assert_eq!(setram(2000, true, me, 1500, 100, big), Ok((2000, Asset::new(i64::MAX, Symbol::new(0)))));
    let s = RamSupply { max_ram_size: 100, last_ram_increase: BlockTimestamp::new(10), base };
    let grown = update_ram_supply(BlockTimestamp::new(13), 5, s);
    assert_eq!(grown.max_ram_size, 115);
    assert_eq!(grown.base.amount, 1015);
    assert_eq!(grown.last_ram_increase, BlockTimestamp::new(13));
    assert_eq!(update_ram_supply(BlockTimestamp::new(10), 5, s), s);
}

#[test]
fn buying_ram() {
    let alice = Name::new(ALICE);
    assert_eq!(buyram_fee(xpr(1000), true, alice, sym()), Ok((xpr(5), xpr(995))));
    assert_eq!(buyram_fee(xpr(1), true, alice, sym()), Ok((xpr(1), xpr(0))));
    assert_eq!(buyram_fee(xpr(201), true, alice, sym()), Ok((xpr(2), xpr(199))));
    assert_eq!(buyram_fee(xpr(0), true, alice, sym()), Err(SystemError::MustPurchasePositive));
    assert_eq!(buyram_fee(Asset::new(1, Symbol::new(0)), true, alice, sym()), Err(SystemError::MustBuyWithCore));
    assert_eq!(buyram_fee(xpr(1), false, alice, sym()), Err(SystemError::MissingAuth(alice)));
    let plan = buyram_settle(alice, 300, xpr(995), None, None, limits(), 10, 20, sym()).unwrap();
    assert_eq!(plan.total_ram_bytes_reserved, 310);
    assert_eq!(plan.total_ram_stake, 1015);
    assert_eq!(
        plan.totals,
        RowWrite::Insert { payer: alice, row: UserResources { owner: alice, net_weight: xpr(0), cpu_weight: xpr(0), ram_bytes: 300 } }
    );
    assert_eq!(plan.limits, Some(ResourceLimits { ram_bytes: 5000 + 1400, net_weight: 1, cpu_weight: 2 }));
    let managed = buyram_settle(alice, 300, xpr(995), None, Some(1), limits(), 10, 20, sym()).unwrap();
    assert_eq!(managed.limits, None);
    assert_eq!(buyram_settle(alice, 0, xpr(995), None, None, limits(), 10, 20, sym()), Err(SystemError::MustReservePositive));
}

#[test]
fn account_creation_rules() {
    let me = Name::new(SELF);
    let alice = Name::new(ALICE);
    let xpr_acct = Name::from_str("xpr").unwrap();
    let dotted = Name::from_str("ab.xpr").unwrap();
    assert_eq!(newaccount(alice, dotted, me, sym()), Err(SystemError::OnlySuffix));
    assert!(newaccount(xpr_acct, dotted, me, sym()).is_ok());
    assert_eq!(newaccount(alice, Name::from_str("abc").unwrap(), me, sym()), Err(SystemError::MinLength));
    let row = newaccount(alice, Name::from_str("abcd").unwrap(), me, sym()).unwrap();
    assert_eq!(row.net_weight, xpr(0));
    assert_eq!(row.ram_bytes, 0);
    assert!(newaccount(me, Name::from_str("abc").unwrap(), me, sym()).is_ok());
    assert!(newaccount(Name::from_str("proton").unwrap(), Name::from_str("a").unwrap(), me, sym()).is_ok());
}

#[test]
fn voting_power_and_proxies() {
    assert_eq!(update_voting_power(xpr(5), None), Ok(5));
    assert_eq!(update_voting_power(xpr(-5), Some(7)), Ok(2));
    assert_eq!(update_voting_power(xpr(-8), Some(7)), Err(SystemError::NegativeVoteStake));
    let alice = Name::new(ALICE);
    assert_eq!(regproxy(alice, true, true, None), Ok(ProxyChange::Create(true)));
    assert_eq!(regproxy(alice, true, true, Some(false)), Ok(ProxyChange::Update(true)));
    assert_eq!(regproxy(alice, true, true, Some(true)), Err(SystemError::NoEffect));
    assert_eq!(regproxy(alice, true, false, None), Err(SystemError::MissingAuth(alice)));
}

fn key(b: u8) -> PublicKey {
    let mut bytes = [0u8; 34];
    bytes[2] = b;
    PublicKey::new(&bytes).unwrap()
}

#[test]
fn producers() {
    let alice = Name::new(ALICE);
    assert_eq!(regproducer(alice, true, 511), Ok(()));
    assert_eq!(regproducer(alice, true, 512), Err(SystemError::UrlTooLong));
    assert_eq!(regproducer(alice, false, 0), Err(SystemError::MissingAuth(alice)));
    let good = BlockSigningAuthority::new(1, vec![KeyWeight { key: key(1), weight: 1 }]);
    let bad = BlockSigningAuthority::new(2, vec![KeyWeight { key: key(1), weight: 1 }]);
    assert_eq!(regproducer2(alice, true, 3, &good), Ok(()));
    assert_eq!(regproducer2(alice, true, 3, &bad), Err(SystemError::InvalidAuthority));
    assert_eq!(signing_key(&good).0 .0, key(1).0 .0);
    let two = BlockSigningAuthority::new(1, vec![KeyWeight { key: key(1), weight: 1 }, KeyWeight { key: key(2), weight: 1 }]);
    assert_eq!(signing_key(&two).0 .0, [0u8; 34]);
    assert_eq!(unregprod(alice, true, false), Err(SystemError::ProducerNotFound));
    assert_eq!(unregprod(alice, true, true), Ok(()));
    let header = BlockHeader {
        timestamp: BlockTimestamp::new(9),
        producer: alice,
        confirmed: 0,
        previous: FixedBytes::new([0u8; 32]),
        transaction_mroot: FixedBytes::new([0u8; 32]),
        action_mroot: FixedBytes::new([0u8; 32]),
    };
    assert_eq!(onblock(true, Name::new(SELF), &header), Ok(BlockTimestamp::new(9)));
}

#[test]
fn initialization() {
    let me = Name::new(SELF);
    let now = TimePoint::from_micros(77);
    let plan = init(0, sym(), true, me, false, Some(xpr(5_000_000)), 1024, now).unwrap();
    assert_eq!(plan.ramcore_supply, Asset::new(100_000_000_000_000, Symbol::new(RAMCORE_SYMBOL)));
    assert_eq!(plan.base, Asset::new(1024, Symbol::new(RAM_SYMBOL)));
    assert_eq!(plan.quote, Asset::new(5000, sym()));
    assert_eq!(plan.producer.owner, me);
    assert_eq!(plan.producer.producer_key.0 .0[..4], [0u8, 3, 12, 214]);
    assert!(plan.producer.is_active);
    assert_eq!(plan.producer.url, "https://metalblockchain.org");
    assert_eq!(plan.producer.unpaid_blocks, 0);
    assert_eq!(plan.producer.last_claim_time, now);
    assert_eq!(plan.producer.location, 840);
    assert_eq!(plan.open.account, Name::new(TOKEN_ACCOUNT));
    assert_eq!(plan.open.name, Name::new(OPEN_ACTION));
    assert_eq!(plan.open.authorization, vec![PermissionLevel::new(me, Name::new(ACTIVE_PERMISSION))]);
    assert_eq!(plan.open.data.owner, Name::new(REX_ACCOUNT));
    assert_eq!(plan.open.data.symbol, sym());
    assert_eq!(plan.open.data.ram_payer, me);
    let ok = |r: Result<pulse_cdt::system::InitPlan, SystemError>| r.err();
    assert_eq!(ok(init(1, sym(), true, me, false, Some(xpr(1)), 0, now)), Some(SystemError::UnsupportedVersion));
    assert_eq!(ok(init(0, sym(), true, me, true, Some(xpr(1)), 0, now)), Some(SystemError::AlreadyInitialized));
    assert_eq!(ok(init(0, sym(), true, me, false, None, 0, now)), Some(SystemError::SymbolMissing));
    assert_eq!(ok(init(0, Symbol::new(0), true, me, false, Some(xpr(1)), 0, now)), Some(SystemError::CorePrecisionMismatch));
    assert_eq!(ok(init(0, sym(), true, me, false, Some(xpr(0)), 0, now)), Some(SystemError::SupplyNotPositive));
    assert_eq!(ok(init(0, sym(), false, me, false, Some(xpr(1)), 0, now)), Some(SystemError::MissingAuth(me)));
    assert_eq!(core_symbol_account(None), Name::new(SELF));
    assert_eq!(core_symbol(Some(xpr(1))), Ok(sym()));
    assert_eq!(core_symbol(None), Err(SystemError::NotInitialized));
    let d = GlobalStateRAM::default();
    assert_eq!(d.ram_price_per_byte, Asset::new(200, Symbol::new(XPR4)));
    assert_eq!(d.max_per_user_bytes, 3 * 1024 * 1024);
}

#[test]
fn ram_market_conversions() {
    let ram = Symbol::new(0);
    let base = Asset::new(1000, ram);
    let quote = xpr(500);
    assert_eq!(conversion(sym(), ram, ram, sym()), Ok(Conversion::QuoteToBase));
    assert_eq!(conversion(ram, sym(), ram, sym()), Ok(Conversion::BaseToQuote));
    assert_eq!(conversion(sym(), sym(), ram, sym()), Err(SystemError::SameSymbolConversion));
    assert_eq!(conversion(Symbol::new(7), sym(), ram, sym()), Err(SystemError::InvalidConversion));
    let (b, q, out) = apply_conversion(Conversion::QuoteToBase, xpr(50), ram, 90, base, quote).unwrap();
    assert_eq!(b, Asset::new(910, ram));
    assert_eq!(q, xpr(550));
    assert_eq!(out, Asset::new(90, ram));
}

#[test]
fn dispatch_routes() {
    assert_eq!(route(1, 1, 5378043540636893184), Ok(Some(SystemAction::Delegatebw)));
    assert_eq!(route(1, 2, 5378043540636893184), Ok(None));
    assert_eq!(route(1, 1, 42), Err(DispatchError::UnknownAction));
    assert_eq!(route(1, 2, 11877535737890996224), Err(DispatchError::OnError));
    assert_eq!(DispatchError::UnknownAction.message(), "unknown action");
}

#[test]
fn vote_target_rules() {
    let alice = Name::new(ALICE);
    let bob = Name::new(BOB);
    let none = Name::new(0);
    assert_eq!(check_vote_targets(alice, bob, &vec![]), Ok(()));
    assert_eq!(check_vote_targets(alice, bob, &vec![alice]), Err(SystemError::ProxyAndProducers));
    assert_eq!(check_vote_targets(alice, alice, &vec![]), Err(SystemError::ProxyToSelf));
    assert_eq!(check_vote_targets(alice, none, &vec![alice, bob]), Ok(()));
    assert_eq!(check_vote_targets(alice, none, &vec![bob, alice]), Err(SystemError::ProducersNotSorted));
    assert_eq!(check_vote_targets(alice, none, &vec![alice, alice]), Err(SystemError::ProducersNotSorted));
    let many: Vec<Name> = (1..=31u64).map(Name::new).collect();
    assert_eq!(check_vote_targets(alice, none, &many), Err(SystemError::TooManyProducers));
    assert_eq!(check_vote_targets(alice, none, &many[..30].to_vec()), Ok(()));
    assert_eq!(check_voter(none, None), Err(SystemError::MustStakeToVote));
    assert_eq!(check_voter(bob, Some(true)), Err(SystemError::ProxyUsesProxy));
    assert_eq!(check_voter(none, Some(true)), Ok(()));
    assert_eq!(check_propagation(bob), Err(SystemError::ProxyUsesProxy));
    assert_eq!(check_propagation(none), Ok(()));
}

#[test]
fn stake_activation_and_vote_pay() {
    let zero = TimePoint::from_micros(0);
    let now = TimePoint::from_micros(77);
    assert_eq!(activate_stake(10, zero, true, 5, now), (15, zero));
    assert_eq!(activate_stake(MIN_ACTIVATED_STAKE - 5, zero, true, 5, now), (MIN_ACTIVATED_STAKE, now));
    assert_eq!(activate_stake(10, zero, false, 5, now), (10, zero));
    assert_eq!(activate_stake(10, now, true, 5, now), (10, now));
    let claim = TimePoint::from_micros(1);
    assert_eq!(votepay_threshold(claim, zero, TimePoint::from_micros(1 + THREE_DAYS_US)), (true, false));
    assert_eq!(votepay_threshold(claim, TimePoint::from_micros(THREE_DAYS_US + 5), zero), (false, true));
    assert_eq!(vote_weeks(946_684_800 + 604_800 * 3 + 5), 3);
    assert_eq!(vote_weeks(946_684_800 - 604_800 - 1), -1);
}

#[test]
fn abi_hashes() {
    let alice = Name::new(ALICE);
    let h = FixedBytes::new([9u8; 32]);
    match abi_hash_write(alice, h, None) {
        RowWrite::Insert { payer, row } => {
            assert_eq!(payer, alice);
            assert_eq!(row.owner, alice);
            assert_eq!(row.hash.0, [9u8; 32]);
        }
        _ => panic!("expected an insert"),
    }
    let old = pulse_cdt::tables::AbiHash { owner: alice, hash: FixedBytes::new([1u8; 32]) };
    match abi_hash_write(alice, h, Some(old)) {
        RowWrite::Update { payer, row } => {
            assert_eq!(payer, Name::new(0));
            assert_eq!(row.hash.0, [9u8; 32]);
        }
        _ => panic!("expected an update"),
    }
}

#[test]
fn every_contract_refuses_onerror_and_unknown_actions() {
    assert_eq!(token_route(1, 1, ONERROR), Err(DispatchError::OnError));
    assert_eq!(msig_route(1, 2, ONERROR), Err(DispatchError::OnError));
    assert_eq!(bios_route(1, 1, ONERROR), Err(DispatchError::OnError));
    assert_eq!(token_route(1, 1, 5), Err(DispatchError::UnknownAction));
    assert_eq!(msig_route(1, 1, 5), Err(DispatchError::UnknownAction));
    assert_eq!(bios_route(1, 1, 5), Err(DispatchError::UnknownAction));
    assert_eq!(token_route(1, 2, 5), Ok(None));
    assert_eq!(token_route(1, 1, 14829575313431724032), Ok(Some(TokenAction::Transfer)));
    assert_eq!(msig_route(1, 1, 6292795316831780864), Ok(Some(MsigAction::Exec)));
    assert_eq!(bios_route(1, 1, 14029658124516851712), Ok(Some(BiosAction::Setpriv)));
    assert_eq!(bios_route(1, 2, 14029658124516851712), Ok(None));
}

fn after<R: Clone>(before: Option<R>, w: &Option<RowWrite<R>>) -> Option<R> {
    match w {
        None => before,
        Some(RowWrite::Insert { row, .. }) | Some(RowWrite::Update { row, .. }) => Some(row.clone()),
        Some(RowWrite::Remove) => None,
    }
}

#[test]
fn undelegating_what_was_delegated_restores_the_rows() {
    let alice = Name::new(ALICE);
    let bob = Name::new(BOB);
    let d0 = Some(DelegatedBandwidth { from: alice, to: bob, net_weight: xpr(5), cpu_weight: xpr(0) });
    let t0 = Some(UserResources { owner: bob, net_weight: xpr(5), cpu_weight: xpr(1), ram_bytes: 100 });
    for (d, t) in [(d0, t0), (None, None)] {
        let p1 = delegatebw(alice, bob, xpr(3), xpr(4), false, true, d, t, None, limits(), None, now(), sym()).unwrap();
        let d1 = after(d, &p1.delegated);
        let t1 = after(t, &p1.totals);
        let p2 = undelegatebw(alice, bob, xpr(3), xpr(4), true, true, d1, t1, None, limits(), None, now(), sym()).unwrap();
        assert_eq!(after(d1, &p2.delegated), d);
        assert_eq!(after(t1, &p2.totals), t);
        assert_eq!(p1.voting_delta.amount + p2.voting_delta.amount, 0);
    }
}

#[test]
fn producer_registration_decisions() {
    let now = TimePoint::from_micros(50);
    let fresh = registration(None, false, now);
    assert!(fresh.create_row && fresh.create_second_row && !fresh.count_existing_votes);
    assert_eq!(fresh.last_claim_time, now);
    let never_claimed = registration(Some(TimePoint::from_micros(0)), false, now);
    assert!(!never_claimed.create_row && never_claimed.create_second_row && never_claimed.count_existing_votes);
    assert_eq!(never_claimed.last_claim_time, now);
    let claimed = registration(Some(TimePoint::from_micros(7)), true, now);
    assert!(!claimed.create_row && !claimed.create_second_row && !claimed.count_existing_votes);
    assert_eq!(claimed.last_claim_time, TimePoint::from_micros(7));
}
