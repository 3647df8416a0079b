use pulse_cdt::action::{Action, ActionWrapper};
use pulse_cdt::asset::Asset;
use pulse_cdt::authority::PermissionLevel;
use pulse_cdt::codec::Packed;
use pulse_cdt::msig::{
    approve, cancel, counted_levels, exec_final_check, exec_precheck, invalidate, propose,
    requested_from_levels, sorted_levels, new_approvals, unapprove, Approval, ApprovalsInfo, Invalidation, MsigError,
};
use pulse_cdt::name::Name;
use pulse_cdt::store::{
    DbOp, MultiIndex, MultiIndexDefinition, Payer, PrimaryTableIndex, RowWrite, Singleton,
    SingletonDefinition, SingletonError, TableCursor, TableError,
};
use pulse_cdt::symbol::Symbol;
use pulse_cdt::tables::{Account, GlobalStateRAM, Table};
use pulse_cdt::time::{TimePoint, TimePointSec};

const ALICE: u64 = 3773036822876127232;
const BOB: u64 = 4399453885987553280;
const ACTIVE: u64 = 3617214756542218240;
const XPR4: u64 = 1380997124;

fn level(actor: u64) -> PermissionLevel {
    PermissionLevel::new(Name::new(actor), Name::new(ACTIVE))
}

fn at(us: i64) -> TimePoint {
    TimePoint::from_micros(us)
}

fn info() -> ApprovalsInfo {
    ApprovalsInfo {
        version: 0,
        proposal_name: Name::new(7),
        requested_approvals: requested_from_levels(&vec![level(ALICE), level(BOB)]),
        provided_approvals: vec![],
    }
}

#[test]
fn approve_moves_request_to_provided() {
    let n = approve(level(BOB), true, Some(info()), at(50)).unwrap();
    assert_eq!(n.requested_approvals, vec![Approval { level: level(ALICE), time: at(0) }]);
    assert_eq!(n.provided_approvals, vec![Approval { level: level(BOB), time: at(50) }]);
    assert_eq!(n.requested_approvals().len(), 1);
}

#[test]
fn approve_then_unapprove() {
    let n = approve(level(BOB), true, Some(info()), at(50)).unwrap();
    let m = unapprove(level(BOB), true, Some(n), at(60)).unwrap();
    assert!(m.provided_approvals.is_empty());
    assert_eq!(
        m.requested_approvals,
        vec![Approval { level: level(ALICE), time: at(0) }, Approval { level: level(BOB), time: at(60) }]
    );
}

#[test]
fn approval_errors() {
    assert_eq!(approve(level(BOB), false, Some(info()), at(1)).err(), Some(MsigError::MissingAuth(level(BOB))));
    assert_eq!(approve(level(BOB), true, None, at(1)).err(), Some(MsigError::ProposalNotFound));
    assert_eq!(approve(level(7), true, Some(info()), at(1)).err(), Some(MsigError::NotRequested));
    assert_eq!(unapprove(level(BOB), true, Some(info()), at(1)).err(), Some(MsigError::NotProvided));
    assert_eq!(MsigError::NotRequested.message(), "approval is not on the list of requested approvals");
}

#[test]
fn invalidated_approvals_do_not_count() {
    let provided = vec![
        Approval { level: level(ALICE), time: at(10) },
        Approval { level: level(ALICE), time: at(20) },
        Approval { level: level(BOB), time: at(10) },
    ];
    let levels = counted_levels(&provided, &vec![Some(at(15)), Some(at(15)), Some(at(10))]);
    assert_eq!(levels, vec![level(ALICE)]);
    let levels = counted_levels(&provided, &vec![None, None, None]);
    assert_eq!(levels, vec![level(ALICE), level(BOB)]);
}

#[test]
fn proposal_checks() {
    let alice = Name::new(ALICE);
    let now = at(5_000_000);
    assert_eq!(propose(alice, true, TimePointSec::new(5), 0, now, false, true), Ok(()));
    assert_eq!(propose(alice, true, TimePointSec::new(4), 0, now, false, true), Err(MsigError::Expired));
    assert_eq!(propose(alice, true, TimePointSec::new(9), 1, now, false, true), Err(MsigError::ContextFreeInPropose));
    assert_eq!(propose(alice, true, TimePointSec::new(9), 0, now, true, true), Err(MsigError::ProposalExists));
    assert_eq!(propose(alice, true, TimePointSec::new(9), 0, now, false, false), Err(MsigError::AuthorizationFailed));
    assert_eq!(cancel(Name::new(BOB), alice, true, true, TimePointSec::new(9), now, true), Err(MsigError::CannotCancelYet));
    assert_eq!(cancel(Name::new(BOB), alice, true, true, TimePointSec::new(4), now, true), Ok(()));
    assert_eq!(cancel(alice, alice, true, true, TimePointSec::new(9), now, true), Ok(()));
    assert_eq!(cancel(alice, alice, true, false, TimePointSec::new(9), now, true), Err(MsigError::ProposalNotFound));
    assert_eq!(exec_precheck(alice, true, true, TimePointSec::new(4), 0, now), Err(MsigError::Expired));
    assert_eq!(exec_precheck(alice, true, true, TimePointSec::new(5), 2, now), Err(MsigError::ContextFreeInExec));
    assert_eq!(exec_final_check(true, Some(at(6_000_000)), 0, now), Err(MsigError::TooEarly));
    assert_eq!(exec_final_check(true, Some(at(5_000_000)), 0, now), Ok(()));
    assert_eq!(exec_final_check(true, None, 3, now), Err(MsigError::OldProposalDelay));
    assert_eq!(exec_final_check(false, None, 0, now), Err(MsigError::AuthorizationFailed));
}

#[test]
fn invalidation_rows() {
    let alice = Name::new(ALICE);
    assert_eq!(
        invalidate(alice, true, None, at(3)),
        Ok(RowWrite::Insert { payer: alice, row: Invalidation { account: alice, last_invalidation_time: at(3) } })
    );
    let old = Invalidation { account: alice, last_invalidation_time: at(1) };
    assert_eq!(
        invalidate(alice, true, Some(old), at(3)),
        Ok(RowWrite::Update { payer: alice, row: Invalidation { account: alice, last_invalidation_time: at(3) } })
    );
}

fn account(amount: i64) -> Account {
    Account { balance: Asset::new(amount, Symbol::new(XPR4)) }
}

fn encoded(a: &Account) -> Vec<u8> {
    let mut buf = vec![0u8; a.num_bytes()];
    let mut pos = 0;
    a.write(&mut buf, &mut pos).unwrap();
    buf
}

#[test]
fn table_lookups_and_writes() {
    let def: MultiIndexDefinition<Account> = MultiIndexDefinition::new(Name::new(99));
    let idx: MultiIndex<Account> = def.index(Name::new(1), 2);
    assert!(idx.find(-1, &[]).unwrap().is_end());
    let bytes = encoded(&account(5));
    let it = idx.find(3, &bytes).unwrap();
    assert_eq!(it.value(), account(5));
    assert!(idx.get(-1, &[]).is_err());
    assert_eq!(idx.get(3, &bytes[..4]).err().map(|e| e == TableError::Unreadable), Some(true));
    match idx.emplace(Name::new(8), &account(6)) {
        DbOp::Store { scope, table, payer, id, data } => {
            assert_eq!((scope, table, payer), (2, Name::new(99), Name::new(8)));
            assert_eq!(id, XPR4 >> 8);
            assert_eq!(data, encoded(&account(6)));
        }
        _ => panic!("expected a store"),
    }
    match idx.modify(&it, Payer::Same, &account(9)) {
        DbOp::Update { itr, payer, data } => {
            assert_eq!((itr, payer), (3, Name::new(0)));
            assert_eq!(data, encoded(&account(9)));
        }
        _ => panic!("expected an update"),
    }
    match idx.erase(&it) {
        DbOp::Remove { itr } => assert_eq!(itr, 3),
        _ => panic!("expected a removal"),
    }
    assert_eq!(Account::primary_key(&account(1)), XPR4 >> 8);
}

#[test]
fn primary_index_cursors() {
    let idx: PrimaryTableIndex<Account> = PrimaryTableIndex::new(Name::new(1), Name::new(2));
    assert!(idx.find(-1).is_none());
    let cur = idx.find(4).unwrap();
    let bytes = encoded(&account(3));
    assert_eq!(cur.get(&bytes).unwrap(), account(3));
    let (n, op) = cur.modify(&account(4), Payer::New(Name::new(5)));
    assert_eq!(n, 16);
    match op {
        DbOp::Update { itr, payer, .. } => assert_eq!((itr, payer), (4, Name::new(5))),
        _ => panic!("expected an update"),
    }
    let mut walk = cur.into_iter();
    assert_eq!(walk.next(6).unwrap().value, 4);
    assert_eq!(walk.next(-1).unwrap().value, 6);
    assert!(walk.next(9).is_none());
}

#[test]
fn singletons() {
    let def: SingletonDefinition<GlobalStateRAM> = SingletonDefinition::new(Name::new(77));
    let single: Singleton<GlobalStateRAM> = def.get_instance(Name::new(1), 1);
    assert_eq!(single.pk_value, 77);
    let end = single.table.end();
    assert!(!single.row_exists(&end));
    assert_eq!(single.get(&end).err(), Some(SingletonError::Missing));
    let d = GlobalStateRAM::default();
    assert_eq!(single.get_or_default(&end, d), d);
    let (row, op) = single.get_or_create(&end, Name::new(3), d);
    assert_eq!(row, d);
    assert!(matches!(op, Some(DbOp::Store { .. })));
    assert!(matches!(single.set(&end, d, Name::new(3)), DbOp::Store { .. }));
    assert!(single.remove(&end).is_none());
    assert_eq!(SingletonError::Missing.message(), "singleton does not exist");
}

#[test]
fn actions() {
    let w: ActionWrapper<u64> = ActionWrapper::new(Name::new(5));
    let a = w.to_action(Name::new(6), vec![level(ALICE)], 9);
    assert_eq!((a.account, a.name, a.data), (Name::new(6), Name::new(5), 9));
    let b = Action::new(vec![], Name::new(1), Name::new(2), 3u8);
    assert_eq!(b.authorization.len(), 0);
}

#[test]
fn requested_levels_are_ordered_and_unique() {
    let owner = PermissionLevel::new(Name::new(ALICE), Name::new(1));
    let given = vec![level(BOB), level(ALICE), level(BOB), owner, level(ALICE)];
    assert_eq!(sorted_levels(&given), vec![owner, level(ALICE), level(BOB)]);
    assert_eq!(sorted_levels(&Vec::new()), Vec::<PermissionLevel>::new());
}

#[test]
fn new_proposal_asks_each_level_once() {
    let given = vec![level(BOB), level(ALICE), level(BOB)];
    let info = new_approvals(Name::new(7), &given);
    assert_eq!(info.version, 0);
    assert_eq!(info.proposal_name, Name::new(7));
    assert!(info.provided_approvals.is_empty());
    let levels: Vec<PermissionLevel> = info.requested_approvals.iter().map(|a| a.level).collect();
    assert_eq!(levels, vec![level(ALICE), level(BOB)]);
    assert!(info.requested_approvals.iter().all(|a| a.time == at(0)));
}

#[test]
fn emplaced_row_is_found_again() {
    let def: MultiIndexDefinition<Account> = MultiIndexDefinition::new(Name::new(3607749779137757184));
    let idx: MultiIndex<Account> = def.index(Name::new(1), 2);
    let row = Account { balance: Asset::new(42, Symbol::new(XPR4)) };
    match idx.emplace(Name::new(ALICE), &row) {
        DbOp::Store { id, data, .. } => {
            assert_eq!(id, Account::primary_key(&row));
            let it = idx.find(0, &data).unwrap();
            assert_eq!(it.value().balance, row.balance);
        }
        _ => panic!("emplace must request a store"),
    }
}
