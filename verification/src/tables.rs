use vstd::prelude::*;

use crate::asset::Asset;
use crate::codec::{lemma_prefix_concat, lemma_written_concat, prefix_at, Packed, ReadError, WriteError};
use crate::keys::Checksum256;
use crate::name::Name;
use crate::symbol::Symbol;
use crate::time::{TimePoint, TimePointSec};

verus! {

/// A kind of table row, stored under a primary key.
pub trait Table: Sized {
    /// The stored row.
    type Row: Packed + Copy;

    /// A row's encoding is short.
    proof fn lemma_row_size(row: Self::Row)
        ensures
            row.packed().len() <= 1024,
    ;

    /// The key a row is stored under.
    spec fn spec_primary_key(row: Self::Row) -> u64;

    /// The key a row is stored under.
    fn primary_key(row: &Self::Row) -> (k: u64)
        ensures
            k == Self::spec_primary_key(*row),
    ;
}

/// The hash of the ABI an account has set.
#[derive(Debug, Clone, Copy)]
pub struct AbiHash {
    /// The account
    pub owner: Name,
    /// The SHA-256 of its ABI
    pub hash: Checksum256,
}

impl Table for AbiHash {
    type Row = AbiHash;

    open spec fn spec_primary_key(row: AbiHash) -> u64 {
        row.owner.0
    }

    proof fn lemma_row_size(row: AbiHash) {
    }

    fn primary_key(row: &AbiHash) -> (k: u64) {
        row.owner.0
    }
}

/// A balance of one token held by one account.
#[derive(Debug, Clone, Copy, PartialEq, Eq, Structural)]
pub struct Account {
    /// The balance
    pub balance: Asset,
}

impl Table for Account {
    type Row = Account;

    open spec fn spec_primary_key(row: Account) -> u64 {
        row.balance.symbol.0 >> 8u64
    }

    proof fn lemma_row_size(row: Account) {
    }

    fn primary_key(row: &Account) -> (k: u64) {
        row.balance.symbol.0 >> 8u64
    }
}

/// The supply of a token and who may issue it.
#[derive(Debug, Clone, Copy, PartialEq, Eq, Structural)]
pub struct CurrencyStats {
    /// The amount in circulation
    pub supply: Asset,
    /// The most that may be issued
    pub max_supply: Asset,
    /// The account that may issue it
    pub issuer: Name,
}

impl Table for CurrencyStats {
    type Row = CurrencyStats;

    open spec fn spec_primary_key(row: CurrencyStats) -> u64 {
        row.supply.symbol.0 >> 8u64
    }

    proof fn lemma_row_size(row: CurrencyStats) {
    }

    fn primary_key(row: &CurrencyStats) -> (k: u64) {
        row.supply.symbol.0 >> 8u64
    }
}

/// The highest bid for a premium name.
#[derive(Debug, Clone, Copy, PartialEq, Eq, Structural)]
pub struct NameBid {
    /// The name bid for
    pub new_name: Name,
    /// Who bid highest
    pub high_bidder: Name,
    /// The highest bid
    pub high_bid: i64,
    /// When the last bid came
    pub last_bid_time: TimePoint,
}

impl Table for NameBid {
    type Row = NameBid;

    open spec fn spec_primary_key(row: NameBid) -> u64 {
        row.new_name.0
    }

    proof fn lemma_row_size(row: NameBid) {
    }

    fn primary_key(row: &NameBid) -> (k: u64) {
        row.new_name.0
    }
}

/// What an outbid bidder gets back.
#[derive(Debug, Clone, Copy, PartialEq, Eq, Structural)]
pub struct BidRefund {
    /// The outbid account
    pub bidder: Name,
    /// What it gets back
    pub amount: Asset,
}

impl Table for BidRefund {
    type Row = BidRefund;

    open spec fn spec_primary_key(row: BidRefund) -> u64 {
        row.bidder.0
    }

    proof fn lemma_row_size(row: BidRefund) {
    }

    fn primary_key(row: &BidRefund) -> (k: u64) {
        row.bidder.0
    }
}

/// The resources staked for an account, and its RAM.
#[derive(Debug, Clone, Copy, PartialEq, Eq, Structural)]
pub struct UserResources {
    /// The account
    pub owner: Name,
    /// Stake for network bandwidth
    pub net_weight: Asset,
    /// Stake for CPU time
    pub cpu_weight: Asset,
    /// Bytes of RAM bought
    pub ram_bytes: i64,
}

impl Table for UserResources {
    type Row = UserResources;

    open spec fn spec_primary_key(row: UserResources) -> u64 {
        row.owner.0
    }

    proof fn lemma_row_size(row: UserResources) {
    }

    fn primary_key(row: &UserResources) -> (k: u64) {
        row.owner.0
    }
}

/// The stake one account has delegated to another.
#[derive(Debug, Clone, Copy, PartialEq, Eq, Structural)]
pub struct DelegatedBandwidth {
    /// The account that staked
    pub from: Name,
    /// The account that receives the resources
    pub to: Name,
    /// Stake for network bandwidth
    pub net_weight: Asset,
    /// Stake for CPU time
    pub cpu_weight: Asset,
}

impl Table for DelegatedBandwidth {
    type Row = DelegatedBandwidth;

    open spec fn spec_primary_key(row: DelegatedBandwidth) -> u64 {
        row.to.0
    }

    proof fn lemma_row_size(row: DelegatedBandwidth) {
    }

    fn primary_key(row: &DelegatedBandwidth) -> (k: u64) {
        row.to.0
    }
}

/// Unstaked tokens waiting to be returned to their owner.
#[derive(Debug, Clone, Copy, PartialEq, Eq, Structural)]
pub struct RefundRequest {
    /// The account
    pub owner: Name,
    /// When the refund was last asked for
    pub request_time: TimePointSec,
    /// Unstaked network stake
    pub net_amount: Asset,
    /// Unstaked CPU stake
    pub cpu_amount: Asset,
}

impl Table for RefundRequest {
    type Row = RefundRequest;

    open spec fn spec_primary_key(row: RefundRequest) -> u64 {
        row.owner.0
    }

    proof fn lemma_row_size(row: RefundRequest) {
    }

    fn primary_key(row: &RefundRequest) -> (k: u64) {
        row.owner.0
    }
}

/// Tokens one account has staked for another.
#[derive(Debug, Clone, Copy, PartialEq, Eq, Structural)]
pub struct DelegatedXPR {
    /// The account that staked
    pub from: Name,
    /// The account staked for
    pub to: Name,
    /// The stake
    pub quantity: Asset,
}

impl Table for DelegatedXPR {
    type Row = DelegatedXPR;

    open spec fn spec_primary_key(row: DelegatedXPR) -> u64 {
        row.to.0
    }

    proof fn lemma_row_size(row: DelegatedXPR) {
    }

    fn primary_key(row: &DelegatedXPR) -> (k: u64) {
        row.to.0
    }
}

/// A voter's stake and reward state.
#[derive(Debug, Clone, Copy)]
pub struct VotersXPR {
    /// The voter
    pub owner: Name,
    /// The amount staked
    pub staked: u64,
    /// Whether the voter earns rewards
    pub isqualified: bool,
    /// Reward to claim
    pub claimamount: u64,
    /// When it last claimed
    pub lastclaim: u64,
    /// Stake at the start of the period
    pub startstake: Option<u64>,
    /// Qualification at the start of the period
    pub startqualif: Option<bool>,
}

impl Table for VotersXPR {
    type Row = VotersXPR;

    open spec fn spec_primary_key(row: VotersXPR) -> u64 {
        row.owner.0
    }

    proof fn lemma_row_size(row: VotersXPR) {
    }

    fn primary_key(row: &VotersXPR) -> (k: u64) {
        row.owner.0
    }
}

/// Unstaked tokens waiting to be returned.
#[derive(Debug, Clone, Copy, PartialEq, Eq, Structural)]
pub struct XPRRefundRequest {
    /// The account
    pub owner: Name,
    /// When the refund was asked for
    pub request_time: TimePointSec,
    /// The amount
    pub quantity: Asset,
}

impl Table for XPRRefundRequest {
    type Row = XPRRefundRequest;

    open spec fn spec_primary_key(row: XPRRefundRequest) -> u64 {
        row.owner.0
    }

    proof fn lemma_row_size(row: XPRRefundRequest) {
    }

    fn primary_key(row: &XPRRefundRequest) -> (k: u64) {
        row.owner.0
    }
}

/// Staking parameters.
#[derive(Debug, Clone, Copy, PartialEq, Eq, Structural)]
pub struct GlobalStateXPR {
    /// Most producers one account may vote for
    pub max_bp_per_vote: u64,
    /// Fewest voted producers that earn a voter reward
    pub min_bp_reward: u64,
    /// Seconds before unstaked tokens return
    pub unstake_period: u64,
    /// Accounts handled in one step of reward sharing
    pub process_by: u64,
    /// Seconds between reward sharings
    pub process_interval: u64,
    /// Seconds between reward claims
    pub voters_claim_interval: u64,
    /// Reserved
    pub spare1: u64,
    /// Reserved
    pub spare2: u64,
}

impl Table for GlobalStateXPR {
    type Row = GlobalStateXPR;

    open spec fn spec_primary_key(row: GlobalStateXPR) -> u64 {
        0u64
    }

    proof fn lemma_row_size(row: GlobalStateXPR) {
    }

    fn primary_key(row: &GlobalStateXPR) -> (k: u64) {
        0u64
    }
}

/// Staking totals and reward-sharing progress.
#[derive(Debug, Clone, Copy, PartialEq, Eq, Structural)]
pub struct GlobalStateD {
    /// Total staked
    pub totalstaked: i64,
    /// Total staked by qualified voters
    pub totalrstaked: i64,
    /// Number of qualified voters
    pub totalrvoters: i64,
    /// Rewards not yet claimed
    pub notclaimed: i64,
    /// The reward pool
    pub pool: i64,
    /// When sharing started
    pub processtime: i64,
    /// When sharing last progressed
    pub processtimeupd: i64,
    /// Whether sharing is under way
    pub isprocessing: bool,
    /// Where sharing goes on from
    pub process_from: Name,
    /// Reward shared per unit of stake
    pub process_quant: u64,
    /// Stake handled so far
    pub processrstaked: u64,
    /// Accounts handled so far
    pub processed: u64,
    /// Reserved
    pub spare1: i64,
    /// Reserved
    pub spare2: i64,
}

impl Table for GlobalStateD {
    type Row = GlobalStateD;

    open spec fn spec_primary_key(row: GlobalStateD) -> u64 {
        0u64
    }

    proof fn lemma_row_size(row: GlobalStateD) {
    }

    fn primary_key(row: &GlobalStateD) -> (k: u64) {
        0u64
    }
}

/// The price and limits of RAM.
#[derive(Debug, Clone, Copy, PartialEq, Eq, Structural)]
pub struct GlobalStateRAM {
    /// Price of one byte
    pub ram_price_per_byte: Asset,
    /// Most bytes one account may buy
    pub max_per_user_bytes: u64,
    /// Fee, in hundredths of a percent
    pub ram_fee_percent: u64,
    /// Bytes sold
    pub total_ram: u64,
    /// Tokens paid for RAM
    pub total_xpr: u64,
}

impl Table for GlobalStateRAM {
    type Row = GlobalStateRAM;

    open spec fn spec_primary_key(row: GlobalStateRAM) -> u64 {
        0u64
    }

    proof fn lemma_row_size(row: GlobalStateRAM) {
    }

    fn primary_key(row: &GlobalStateRAM) -> (k: u64) {
        0u64
    }
}

/// The RAM an account has bought.
#[derive(Debug, Clone, Copy, PartialEq, Eq, Structural)]
pub struct UserRAM {
    /// The account
    pub account: Name,
    /// Bytes bought
    pub ram: u64,
    /// What it paid
    pub quantity: Asset,
    /// Its limit in bytes
    pub ramlimit: u64,
}

impl Table for UserRAM {
    type Row = UserRAM;

    open spec fn spec_primary_key(row: UserRAM) -> u64 {
        row.account.0
    }

    proof fn lemma_row_size(row: UserRAM) {
    }

    fn primary_key(row: &UserRAM) -> (k: u64) {
        row.account.0
    }
}

/// The totals of the resource exchange.
#[derive(Debug, Clone, Copy, PartialEq, Eq, Structural)]
pub struct RexPool {
    /// Layout version
    pub version: u64,
    /// Lent out
    pub total_lent: Asset,
    /// Not lent out
    pub total_unlent: Asset,
    /// Fees paid for loans
    pub total_rent: Asset,
    /// Could be lent
    pub total_lendable: Asset,
    /// Shares in circulation
    pub total_rex: Asset,
    /// Proceeds from name bids
    pub namebid_proceeds: Asset,
    /// Loans made
    pub loan_num: u64,
}

impl Table for RexPool {
    type Row = RexPool;

    open spec fn spec_primary_key(row: RexPool) -> u64 {
        0u64
    }

    proof fn lemma_row_size(row: RexPool) {
    }

    fn primary_key(row: &RexPool) -> (k: u64) {
        0u64
    }
}

/// How the exchange's proceeds are paid out over time.
#[derive(Debug, Clone, Copy, PartialEq, Eq, Structural)]
pub struct RexReturnPool {
    /// Layout version
    pub version: u64,
    /// Last payout
    pub last_dist_time: TimePointSec,
    /// Start of the pending bucket
    pub pending_bucket_time: TimePointSec,
    /// Start of the oldest bucket
    pub oldest_bucket_time: TimePointSec,
    /// Proceeds in the pending bucket
    pub pending_bucket_proceeds: i64,
    /// Proceeds paid per interval
    pub current_rate_of_proceeds: i64,
    /// Proceeds not yet paid
    pub proceeds: i64,
}

impl Table for RexReturnPool {
    type Row = RexReturnPool;

    open spec fn spec_primary_key(row: RexReturnPool) -> u64 {
        0u64
    }

    proof fn lemma_row_size(row: RexReturnPool) {
    }

    fn primary_key(row: &RexReturnPool) -> (k: u64) {
        0u64
    }
}

/// Tokens an account has deposited to the exchange.
#[derive(Debug, Clone, Copy, PartialEq, Eq, Structural)]
pub struct RexFund {
    /// Layout version
    pub version: u8,
    /// The account
    pub owner: Name,
    /// The deposit
    pub balance: Asset,
}

impl Table for RexFund {
    type Row = RexFund;

    open spec fn spec_primary_key(row: RexFund) -> u64 {
        row.owner.0
    }

    proof fn lemma_row_size(row: RexFund) {
    }

    fn primary_key(row: &RexFund) -> (k: u64) {
        row.owner.0
    }
}

/// An account's shares in the exchange.
#[derive(Debug, Clone, Copy, PartialEq, Eq, Structural)]
pub struct RexBalance {
    /// Layout version
    pub version: u8,
    /// The account
    pub owner: Name,
    /// Stake that counts for votes
    pub vote_stake: Asset,
    /// Shares held
    pub rex_balance: Asset,
    /// Shares that may be sold
    pub matured_rex: i64,
}

impl Table for RexBalance {
    type Row = RexBalance;

    open spec fn spec_primary_key(row: RexBalance) -> u64 {
        row.owner.0
    }

    proof fn lemma_row_size(row: RexBalance) {
    }

    fn primary_key(row: &RexBalance) -> (k: u64) {
        row.owner.0
    }
}

/// A loan of resources from the exchange.
#[derive(Debug, Clone, Copy, PartialEq, Eq, Structural)]
pub struct RexLoan {
    /// Layout version
    pub version: u8,
    /// Who pays
    pub from: Name,
    /// Who gets the resources
    pub receiver: Name,
    /// The fee
    pub payment: Asset,
    /// Left to renew with
    pub balance: Asset,
    /// Staked for the receiver
    pub total_staked: Asset,
    /// Loan number
    pub loan_num: u64,
    /// When it ends
    pub expiration: TimePoint,
}

impl Table for RexLoan {
    type Row = RexLoan;

    open spec fn spec_primary_key(row: RexLoan) -> u64 {
        row.version as u64
    }

    proof fn lemma_row_size(row: RexLoan) {
    }

    fn primary_key(row: &RexLoan) -> (k: u64) {
        row.version as u64
    }
}

/// A queued order to sell exchange shares.
#[derive(Debug, Clone, Copy, PartialEq, Eq, Structural)]
pub struct RexOrder {
    /// Layout version
    pub version: u8,
    /// Who sells
    pub owner: Name,
    /// Shares to sell
    pub rex_requested: Asset,
    /// Tokens received
    pub proceeds: Asset,
    /// Change in vote stake
    pub stake_change: Asset,
    /// When the order was queued
    pub order_time: TimePoint,
    /// Whether it is still open
    pub is_open: bool,
}

impl Table for RexOrder {
    type Row = RexOrder;

    open spec fn spec_primary_key(row: RexOrder) -> u64 {
        row.owner.0
    }

    proof fn lemma_row_size(row: RexOrder) {
    }

    fn primary_key(row: &RexOrder) -> (k: u64) {
        row.owner.0
    }
}

impl UserResources {
    /// Whether nothing is staked and no RAM is held.
    pub fn is_empty(&self) -> (r: bool)
        ensures
            r == (self.net_weight.amount == 0 && self.cpu_weight.amount == 0 && self.ram_bytes
                == 0),
    {
        self.net_weight.amount == 0 && self.cpu_weight.amount == 0 && self.ram_bytes == 0
    }
}

impl DelegatedBandwidth {
    /// Whether nothing is delegated.
    pub fn is_empty(&self) -> (r: bool)
        ensures
            r == (self.net_weight.amount == 0 && self.cpu_weight.amount == 0),
    {
        self.net_weight.amount == 0 && self.cpu_weight.amount == 0
    }
}

impl RefundRequest {
    /// Whether nothing is left to refund.
    pub fn is_empty(&self) -> (r: bool)
        ensures
            r == (self.net_amount.amount == 0 && self.cpu_amount.amount == 0),
    {
        self.net_amount.amount == 0 && self.cpu_amount.amount == 0
    }
}

/// Proceeds of the resource exchange due at one time.
#[derive(Debug, Clone, Copy, PartialEq, Eq, Structural)]
pub struct ReturnBucket {
    /// When the proceeds are due
    pub time: TimePointSec,
    /// The proceeds
    pub amount: i64,
}

/// The exchange's proceeds by the time they are due, one bucket per time.
#[derive(Debug, Clone)]
pub struct RexReturnBuckets {
    /// Layout version
    pub version: u8,
    /// The buckets, in increasing order of time
    pub return_buckets: Vec<ReturnBucket>,
}

impl RexReturnBuckets {
    /// The buckets are in strictly increasing order of time, as a map keyed by
    /// time keeps them.
    pub open spec fn well_formed(&self) -> bool {
        forall|i: int, j: int|
            0 <= i < j < self.return_buckets@.len() ==> (#[trigger] self.return_buckets@[i]).time.utc_seconds
                < (#[trigger] self.return_buckets@[j]).time.utc_seconds
    }
}

impl Default for GlobalStateRAM {
    fn default() -> (r: Self)
        ensures
            r.ram_price_per_byte.amount == 200,
            r.ram_price_per_byte.symbol.0 == 1380997124,
            r.max_per_user_bytes == 3 * 1024 * 1024,
            r.ram_fee_percent == 1000,
            r.total_ram == 0,
            r.total_xpr == 0,
    {
        GlobalStateRAM {
            ram_price_per_byte: Asset { amount: 200, symbol: Symbol(1380997124) },
            max_per_user_bytes: 3 * 1024 * 1024,
            ram_fee_percent: 1000,
            total_ram: 0,
            total_xpr: 0,
        }
    }
}

impl Packed for AbiHash {
    open spec fn packed(&self) -> Seq<u8> {
        self.owner.packed() + self.hash.packed()
    }

    proof fn lemma_unique(a: Self, b: Self, bytes: Seq<u8>, pos: int) {
        let ghost mut q = pos;
        lemma_prefix_concat(a.owner.packed(), a.hash.packed(), bytes, q);
        lemma_prefix_concat(b.owner.packed(), b.hash.packed(), bytes, q);
        <Name as Packed>::lemma_unique(a.owner, b.owner, bytes, q);
        q = q + a.owner.packed().len();
        <Checksum256 as Packed>::lemma_unique(a.hash, b.hash, bytes, q);
    }

    open spec fn same_value(&self, other: &Self) -> bool {
        &&& self.owner.same_value(&other.owner)
        &&& self.hash.same_value(&other.hash)
    }

    proof fn lemma_injective(a: Self, b: Self) {
        let bytes = a.packed();
        let pos: int = 0;
        assert(bytes.subrange(0, bytes.len() as int) =~= bytes);
        let ghost mut q = pos;
        lemma_prefix_concat(a.owner.packed(), a.hash.packed(), bytes, q);
        lemma_prefix_concat(b.owner.packed(), b.hash.packed(), bytes, q);
        <Name as Packed>::lemma_unique(a.owner, b.owner, bytes, q);
        <Name as Packed>::lemma_injective(a.owner, b.owner);
        q = q + a.owner.packed().len();
        <Checksum256 as Packed>::lemma_unique(a.hash, b.hash, bytes, q);
        <Checksum256 as Packed>::lemma_injective(a.hash, b.hash);
    }

    fn num_bytes(&self) -> (n: usize) {
        self.owner.num_bytes() + self.hash.num_bytes()
    }

    fn read(bytes: &[u8], pos: &mut usize) -> (r: Result<Self, ReadError>) {
        let mut p = *pos;
        let ghost q0: int = p as int;
        let x0 = match <Name as Packed>::read(bytes, &mut p) {
            Ok(x) => x,
            Err(e) => {
                proof {
                    assert forall|v: AbiHash| !prefix_at(#[trigger] v.packed(), bytes@, *old(pos) as int) by {
                        if prefix_at(v.packed(), bytes@, *old(pos) as int) {
                            lemma_prefix_concat(v.owner.packed(), v.hash.packed(), bytes@, q0);
                        }
                    }
                }
                return Err(e);
            },
        };
        let ghost q1: int = p as int;
        let x1 = match <Checksum256 as Packed>::read(bytes, &mut p) {
            Ok(x) => x,
            Err(e) => {
                proof {
                    assert forall|v: AbiHash| !prefix_at(#[trigger] v.packed(), bytes@, *old(pos) as int) by {
                        if prefix_at(v.packed(), bytes@, *old(pos) as int) {
                            lemma_prefix_concat(v.owner.packed(), v.hash.packed(), bytes@, q0);
                            <Name as Packed>::lemma_unique(v.owner, x0, bytes@, q0);
                        }
                    }
                }
                return Err(e);
            },
        };
        let v = AbiHash { owner: x0, hash: x1 };
        proof {
            lemma_prefix_concat(v.owner.packed(), v.hash.packed(), bytes@, q0);
        }
        *pos = p;
        Ok(v)
    }

    fn write(&self, bytes: &mut [u8], pos: &mut usize) -> (r: Result<(), WriteError>) {
        proof {
            assert(self.packed().len() <= 40);
        }
        let n = self.num_bytes();
        let len = bytes.len();
        if *pos > len || n > len - *pos {
            return Err(WriteError::NotEnoughSpace);
        }
        let mut p = *pos;
        let ghost start = *pos as int;
        let ghost buf0 = bytes@;
        let _ = self.owner.write(bytes, &mut p);
        let _ = self.hash.write(bytes, &mut p);
        proof {
            lemma_written_concat(buf0, start, self.owner.packed(), self.hash.packed());
        }
        proof {
            assert(self.owner.packed() + self.hash.packed() =~= self.packed());
        }
        *pos = p;
        Ok(())
    }
}

impl Packed for Account {
    open spec fn packed(&self) -> Seq<u8> {
        self.balance.packed()
    }

    proof fn lemma_unique(a: Self, b: Self, bytes: Seq<u8>, pos: int) {
        let ghost mut q = pos;
        <Asset as Packed>::lemma_unique(a.balance, b.balance, bytes, q);
    }

    open spec fn same_value(&self, other: &Self) -> bool {
        &&& self.balance.same_value(&other.balance)
    }

    proof fn lemma_injective(a: Self, b: Self) {
        let bytes = a.packed();
        let pos: int = 0;
        assert(bytes.subrange(0, bytes.len() as int) =~= bytes);
        let ghost mut q = pos;
        <Asset as Packed>::lemma_unique(a.balance, b.balance, bytes, q);
        <Asset as Packed>::lemma_injective(a.balance, b.balance);
    }

    fn num_bytes(&self) -> (n: usize) {
        self.balance.num_bytes()
    }

    fn read(bytes: &[u8], pos: &mut usize) -> (r: Result<Self, ReadError>) {
        let mut p = *pos;
        let ghost q0: int = p as int;
        let x0 = match <Asset as Packed>::read(bytes, &mut p) {
            Ok(x) => x,
            Err(e) => {
                proof {
                    assert forall|v: Account| !prefix_at(#[trigger] v.packed(), bytes@, *old(pos) as int) by {
                        if prefix_at(v.packed(), bytes@, *old(pos) as int) {
                        }
                    }
                }
                return Err(e);
            },
        };
        let v = Account { balance: x0 };
        proof {
        }
        *pos = p;
        Ok(v)
    }

    fn write(&self, bytes: &mut [u8], pos: &mut usize) -> (r: Result<(), WriteError>) {
        proof {
            assert(self.packed().len() <= 16);
        }
        let n = self.num_bytes();
        let len = bytes.len();
        if *pos > len || n > len - *pos {
            return Err(WriteError::NotEnoughSpace);
        }
        let mut p = *pos;
        let ghost start = *pos as int;
        let ghost buf0 = bytes@;
        let _ = self.balance.write(bytes, &mut p);
        *pos = p;
        Ok(())
    }
}

impl Packed for CurrencyStats {
    open spec fn packed(&self) -> Seq<u8> {
        self.supply.packed() + (self.max_supply.packed() + self.issuer.packed())
    }

    proof fn lemma_unique(a: Self, b: Self, bytes: Seq<u8>, pos: int) {
        let ghost mut q = pos;
        lemma_prefix_concat(a.supply.packed(), a.max_supply.packed() + a.issuer.packed(), bytes, q);
        lemma_prefix_concat(b.supply.packed(), b.max_supply.packed() + b.issuer.packed(), bytes, q);
        <Asset as Packed>::lemma_unique(a.supply, b.supply, bytes, q);
        q = q + a.supply.packed().len();
        lemma_prefix_concat(a.max_supply.packed(), a.issuer.packed(), bytes, q);
        lemma_prefix_concat(b.max_supply.packed(), b.issuer.packed(), bytes, q);
        <Asset as Packed>::lemma_unique(a.max_supply, b.max_supply, bytes, q);
        q = q + a.max_supply.packed().len();
        <Name as Packed>::lemma_unique(a.issuer, b.issuer, bytes, q);
    }

    open spec fn same_value(&self, other: &Self) -> bool {
        &&& self.supply.same_value(&other.supply)
        &&& self.max_supply.same_value(&other.max_supply)
        &&& self.issuer.same_value(&other.issuer)
    }

    proof fn lemma_injective(a: Self, b: Self) {
        let bytes = a.packed();
        let pos: int = 0;
        assert(bytes.subrange(0, bytes.len() as int) =~= bytes);
        let ghost mut q = pos;
        lemma_prefix_concat(a.supply.packed(), a.max_supply.packed() + a.issuer.packed(), bytes, q);
        lemma_prefix_concat(b.supply.packed(), b.max_supply.packed() + b.issuer.packed(), bytes, q);
        <Asset as Packed>::lemma_unique(a.supply, b.supply, bytes, q);
        <Asset as Packed>::lemma_injective(a.supply, b.supply);
        q = q + a.supply.packed().len();
        lemma_prefix_concat(a.max_supply.packed(), a.issuer.packed(), bytes, q);
        lemma_prefix_concat(b.max_supply.packed(), b.issuer.packed(), bytes, q);
        <Asset as Packed>::lemma_unique(a.max_supply, b.max_supply, bytes, q);
        <Asset as Packed>::lemma_injective(a.max_supply, b.max_supply);
        q = q + a.max_supply.packed().len();
        <Name as Packed>::lemma_unique(a.issuer, b.issuer, bytes, q);
        <Name as Packed>::lemma_injective(a.issuer, b.issuer);
    }

    fn num_bytes(&self) -> (n: usize) {
        self.supply.num_bytes() + self.max_supply.num_bytes() + self.issuer.num_bytes()
    }

    fn read(bytes: &[u8], pos: &mut usize) -> (r: Result<Self, ReadError>) {
        let mut p = *pos;
        let ghost q0: int = p as int;
        let x0 = match <Asset as Packed>::read(bytes, &mut p) {
            Ok(x) => x,
            Err(e) => {
                proof {
                    assert forall|v: CurrencyStats| !prefix_at(#[trigger] v.packed(), bytes@, *old(pos) as int) by {
                        if prefix_at(v.packed(), bytes@, *old(pos) as int) {
                            lemma_prefix_concat(v.supply.packed(), v.max_supply.packed() + v.issuer.packed(), bytes@, q0);
                        }
                    }
                }
                return Err(e);
            },
        };
        let ghost q1: int = p as int;
        let x1 = match <Asset as Packed>::read(bytes, &mut p) {
            Ok(x) => x,
            Err(e) => {
                proof {
                    assert forall|v: CurrencyStats| !prefix_at(#[trigger] v.packed(), bytes@, *old(pos) as int) by {
                        if prefix_at(v.packed(), bytes@, *old(pos) as int) {
                            lemma_prefix_concat(v.supply.packed(), v.max_supply.packed() + v.issuer.packed(), bytes@, q0);
                            <Asset as Packed>::lemma_unique(v.supply, x0, bytes@, q0);
                            lemma_prefix_concat(v.max_supply.packed(), v.issuer.packed(), bytes@, q1);
                        }
                    }
                }
                return Err(e);
            },
        };
        let ghost q2: int = p as int;
        let x2 = match <Name as Packed>::read(bytes, &mut p) {
            Ok(x) => x,
            Err(e) => {
                proof {
                    assert forall|v: CurrencyStats| !prefix_at(#[trigger] v.packed(), bytes@, *old(pos) as int) by {
                        if prefix_at(v.packed(), bytes@, *old(pos) as int) {
                            lemma_prefix_concat(v.supply.packed(), v.max_supply.packed() + v.issuer.packed(), bytes@, q0);
                            <Asset as Packed>::lemma_unique(v.supply, x0, bytes@, q0);
                            lemma_prefix_concat(v.max_supply.packed(), v.issuer.packed(), bytes@, q1);
                            <Asset as Packed>::lemma_unique(v.max_supply, x1, bytes@, q1);
                        }
                    }
                }
                return Err(e);
            },
        };
        let v = CurrencyStats { supply: x0, max_supply: x1, issuer: x2 };
        proof {
            lemma_prefix_concat(v.max_supply.packed(), v.issuer.packed(), bytes@, q1);
            lemma_prefix_concat(v.supply.packed(), v.max_supply.packed() + v.issuer.packed(), bytes@, q0);
        }
        *pos = p;
        Ok(v)
    }

    fn write(&self, bytes: &mut [u8], pos: &mut usize) -> (r: Result<(), WriteError>) {
        proof {
            assert(self.packed().len() <= 40);
        }
        let n = self.num_bytes();
        let len = bytes.len();
        if *pos > len || n > len - *pos {
            return Err(WriteError::NotEnoughSpace);
        }
        let mut p = *pos;
        let ghost start = *pos as int;
        let ghost buf0 = bytes@;
        let _ = self.supply.write(bytes, &mut p);
        let _ = self.max_supply.write(bytes, &mut p);
        proof {
            lemma_written_concat(buf0, start, self.supply.packed(), self.max_supply.packed());
        }
        let _ = self.issuer.write(bytes, &mut p);
        proof {
            lemma_written_concat(buf0, start, self.supply.packed() + self.max_supply.packed(), self.issuer.packed());
        }
        proof {
            assert(self.supply.packed() + self.max_supply.packed() + self.issuer.packed() =~= self.packed());
        }
        *pos = p;
        Ok(())
    }
}

impl Packed for NameBid {
    open spec fn packed(&self) -> Seq<u8> {
        self.new_name.packed() + (self.high_bidder.packed() + (self.high_bid.packed() + self.last_bid_time.packed()))
    }

    proof fn lemma_unique(a: Self, b: Self, bytes: Seq<u8>, pos: int) {
        let ghost mut q = pos;
        lemma_prefix_concat(a.new_name.packed(), a.high_bidder.packed() + (a.high_bid.packed() + a.last_bid_time.packed()), bytes, q);
        lemma_prefix_concat(b.new_name.packed(), b.high_bidder.packed() + (b.high_bid.packed() + b.last_bid_time.packed()), bytes, q);
        <Name as Packed>::lemma_unique(a.new_name, b.new_name, bytes, q);
        q = q + a.new_name.packed().len();
        lemma_prefix_concat(a.high_bidder.packed(), a.high_bid.packed() + a.last_bid_time.packed(), bytes, q);
        lemma_prefix_concat(b.high_bidder.packed(), b.high_bid.packed() + b.last_bid_time.packed(), bytes, q);
        <Name as Packed>::lemma_unique(a.high_bidder, b.high_bidder, bytes, q);
        q = q + a.high_bidder.packed().len();
        lemma_prefix_concat(a.high_bid.packed(), a.last_bid_time.packed(), bytes, q);
        lemma_prefix_concat(b.high_bid.packed(), b.last_bid_time.packed(), bytes, q);
        <i64 as Packed>::lemma_unique(a.high_bid, b.high_bid, bytes, q);
        q = q + a.high_bid.packed().len();
        <TimePoint as Packed>::lemma_unique(a.last_bid_time, b.last_bid_time, bytes, q);
    }

    open spec fn same_value(&self, other: &Self) -> bool {
        &&& self.new_name.same_value(&other.new_name)
        &&& self.high_bidder.same_value(&other.high_bidder)
        &&& self.high_bid.same_value(&other.high_bid)
        &&& self.last_bid_time.same_value(&other.last_bid_time)
    }

    proof fn lemma_injective(a: Self, b: Self) {
        let bytes = a.packed();
        let pos: int = 0;
        assert(bytes.subrange(0, bytes.len() as int) =~= bytes);
        let ghost mut q = pos;
        lemma_prefix_concat(a.new_name.packed(), a.high_bidder.packed() + (a.high_bid.packed() + a.last_bid_time.packed()), bytes, q);
        lemma_prefix_concat(b.new_name.packed(), b.high_bidder.packed() + (b.high_bid.packed() + b.last_bid_time.packed()), bytes, q);
        <Name as Packed>::lemma_unique(a.new_name, b.new_name, bytes, q);
        <Name as Packed>::lemma_injective(a.new_name, b.new_name);
        q = q + a.new_name.packed().len();
        lemma_prefix_concat(a.high_bidder.packed(), a.high_bid.packed() + a.last_bid_time.packed(), bytes, q);
        lemma_prefix_concat(b.high_bidder.packed(), b.high_bid.packed() + b.last_bid_time.packed(), bytes, q);
        <Name as Packed>::lemma_unique(a.high_bidder, b.high_bidder, bytes, q);
        <Name as Packed>::lemma_injective(a.high_bidder, b.high_bidder);
        q = q + a.high_bidder.packed().len();
        lemma_prefix_concat(a.high_bid.packed(), a.last_bid_time.packed(), bytes, q);
        lemma_prefix_concat(b.high_bid.packed(), b.last_bid_time.packed(), bytes, q);
        <i64 as Packed>::lemma_unique(a.high_bid, b.high_bid, bytes, q);
        <i64 as Packed>::lemma_injective(a.high_bid, b.high_bid);
        q = q + a.high_bid.packed().len();
        <TimePoint as Packed>::lemma_unique(a.last_bid_time, b.last_bid_time, bytes, q);
        <TimePoint as Packed>::lemma_injective(a.last_bid_time, b.last_bid_time);
    }

    fn num_bytes(&self) -> (n: usize) {
        self.new_name.num_bytes() + self.high_bidder.num_bytes() + self.high_bid.num_bytes() + self.last_bid_time.num_bytes()
    }

    fn read(bytes: &[u8], pos: &mut usize) -> (r: Result<Self, ReadError>) {
        let mut p = *pos;
        let ghost q0: int = p as int;
        let x0 = match <Name as Packed>::read(bytes, &mut p) {
            Ok(x) => x,
            Err(e) => {
                proof {
                    assert forall|v: NameBid| !prefix_at(#[trigger] v.packed(), bytes@, *old(pos) as int) by {
                        if prefix_at(v.packed(), bytes@, *old(pos) as int) {
                            lemma_prefix_concat(v.new_name.packed(), v.high_bidder.packed() + (v.high_bid.packed() + v.last_bid_time.packed()), bytes@, q0);
                        }
                    }
                }
                return Err(e);
            },
        };
        let ghost q1: int = p as int;
        let x1 = match <Name as Packed>::read(bytes, &mut p) {
            Ok(x) => x,
            Err(e) => {
                proof {
                    assert forall|v: NameBid| !prefix_at(#[trigger] v.packed(), bytes@, *old(pos) as int) by {
                        if prefix_at(v.packed(), bytes@, *old(pos) as int) {
                            lemma_prefix_concat(v.new_name.packed(), v.high_bidder.packed() + (v.high_bid.packed() + v.last_bid_time.packed()), bytes@, q0);
                            <Name as Packed>::lemma_unique(v.new_name, x0, bytes@, q0);
                            lemma_prefix_concat(v.high_bidder.packed(), v.high_bid.packed() + v.last_bid_time.packed(), bytes@, q1);
                        }
                    }
                }
                return Err(e);
            },
        };
        let ghost q2: int = p as int;
        let x2 = match <i64 as Packed>::read(bytes, &mut p) {
            Ok(x) => x,
            Err(e) => {
                proof {
                    assert forall|v: NameBid| !prefix_at(#[trigger] v.packed(), bytes@, *old(pos) as int) by {
                        if prefix_at(v.packed(), bytes@, *old(pos) as int) {
                            lemma_prefix_concat(v.new_name.packed(), v.high_bidder.packed() + (v.high_bid.packed() + v.last_bid_time.packed()), bytes@, q0);
                            <Name as Packed>::lemma_unique(v.new_name, x0, bytes@, q0);
                            lemma_prefix_concat(v.high_bidder.packed(), v.high_bid.packed() + v.last_bid_time.packed(), bytes@, q1);
                            <Name as Packed>::lemma_unique(v.high_bidder, x1, bytes@, q1);
                            lemma_prefix_concat(v.high_bid.packed(), v.last_bid_time.packed(), bytes@, q2);
                        }
                    }
                }
                return Err(e);
            },
        };
        let ghost q3: int = p as int;
        let x3 = match <TimePoint as Packed>::read(bytes, &mut p) {
            Ok(x) => x,
            Err(e) => {
                proof {
                    assert forall|v: NameBid| !prefix_at(#[trigger] v.packed(), bytes@, *old(pos) as int) by {
                        if prefix_at(v.packed(), bytes@, *old(pos) as int) {
                            lemma_prefix_concat(v.new_name.packed(), v.high_bidder.packed() + (v.high_bid.packed() + v.last_bid_time.packed()), bytes@, q0);
                            <Name as Packed>::lemma_unique(v.new_name, x0, bytes@, q0);
                            lemma_prefix_concat(v.high_bidder.packed(), v.high_bid.packed() + v.last_bid_time.packed(), bytes@, q1);
                            <Name as Packed>::lemma_unique(v.high_bidder, x1, bytes@, q1);
                            lemma_prefix_concat(v.high_bid.packed(), v.last_bid_time.packed(), bytes@, q2);
                            <i64 as Packed>::lemma_unique(v.high_bid, x2, bytes@, q2);
                        }
                    }
                }
                return Err(e);
            },
        };
        let v = NameBid { new_name: x0, high_bidder: x1, high_bid: x2, last_bid_time: x3 };
        proof {
            lemma_prefix_concat(v.high_bid.packed(), v.last_bid_time.packed(), bytes@, q2);
            lemma_prefix_concat(v.high_bidder.packed(), v.high_bid.packed() + v.last_bid_time.packed(), bytes@, q1);
            lemma_prefix_concat(v.new_name.packed(), v.high_bidder.packed() + (v.high_bid.packed() + v.last_bid_time.packed()), bytes@, q0);
        }
        *pos = p;
        Ok(v)
    }

    fn write(&self, bytes: &mut [u8], pos: &mut usize) -> (r: Result<(), WriteError>) {
        proof {
            assert(self.packed().len() <= 32);
        }
        let n = self.num_bytes();
        let len = bytes.len();
        if *pos > len || n > len - *pos {
            return Err(WriteError::NotEnoughSpace);
        }
        let mut p = *pos;
        let ghost start = *pos as int;
        let ghost buf0 = bytes@;
        let _ = self.new_name.write(bytes, &mut p);
        let _ = self.high_bidder.write(bytes, &mut p);
        proof {
            lemma_written_concat(buf0, start, self.new_name.packed(), self.high_bidder.packed());
        }
        let _ = self.high_bid.write(bytes, &mut p);
        proof {
            lemma_written_concat(buf0, start, self.new_name.packed() + self.high_bidder.packed(), self.high_bid.packed());
        }
        let _ = self.last_bid_time.write(bytes, &mut p);
        proof {
            lemma_written_concat(buf0, start, self.new_name.packed() + self.high_bidder.packed() + self.high_bid.packed(), self.last_bid_time.packed());
        }
        proof {
            assert(self.new_name.packed() + self.high_bidder.packed() + self.high_bid.packed() + self.last_bid_time.packed() =~= self.packed());
        }
        *pos = p;
        Ok(())
    }
}

impl Packed for BidRefund {
    open spec fn packed(&self) -> Seq<u8> {
        self.bidder.packed() + self.amount.packed()
    }

    proof fn lemma_unique(a: Self, b: Self, bytes: Seq<u8>, pos: int) {
        let ghost mut q = pos;
        lemma_prefix_concat(a.bidder.packed(), a.amount.packed(), bytes, q);
        lemma_prefix_concat(b.bidder.packed(), b.amount.packed(), bytes, q);
        <Name as Packed>::lemma_unique(a.bidder, b.bidder, bytes, q);
        q = q + a.bidder.packed().len();
        <Asset as Packed>::lemma_unique(a.amount, b.amount, bytes, q);
    }

    open spec fn same_value(&self, other: &Self) -> bool {
        &&& self.bidder.same_value(&other.bidder)
        &&& self.amount.same_value(&other.amount)
    }

    proof fn lemma_injective(a: Self, b: Self) {
        let bytes = a.packed();
        let pos: int = 0;
        assert(bytes.subrange(0, bytes.len() as int) =~= bytes);
        let ghost mut q = pos;
        lemma_prefix_concat(a.bidder.packed(), a.amount.packed(), bytes, q);
        lemma_prefix_concat(b.bidder.packed(), b.amount.packed(), bytes, q);
        <Name as Packed>::lemma_unique(a.bidder, b.bidder, bytes, q);
        <Name as Packed>::lemma_injective(a.bidder, b.bidder);
        q = q + a.bidder.packed().len();
        <Asset as Packed>::lemma_unique(a.amount, b.amount, bytes, q);
        <Asset as Packed>::lemma_injective(a.amount, b.amount);
    }

    fn num_bytes(&self) -> (n: usize) {
        self.bidder.num_bytes() + self.amount.num_bytes()
    }

    fn read(bytes: &[u8], pos: &mut usize) -> (r: Result<Self, ReadError>) {
        let mut p = *pos;
        let ghost q0: int = p as int;
        let x0 = match <Name as Packed>::read(bytes, &mut p) {
            Ok(x) => x,
            Err(e) => {
                proof {
                    assert forall|v: BidRefund| !prefix_at(#[trigger] v.packed(), bytes@, *old(pos) as int) by {
                        if prefix_at(v.packed(), bytes@, *old(pos) as int) {
                            lemma_prefix_concat(v.bidder.packed(), v.amount.packed(), bytes@, q0);
                        }
                    }
                }
                return Err(e);
            },
        };
        let ghost q1: int = p as int;
        let x1 = match <Asset as Packed>::read(bytes, &mut p) {
            Ok(x) => x,
            Err(e) => {
                proof {
                    assert forall|v: BidRefund| !prefix_at(#[trigger] v.packed(), bytes@, *old(pos) as int) by {
                        if prefix_at(v.packed(), bytes@, *old(pos) as int) {
                            lemma_prefix_concat(v.bidder.packed(), v.amount.packed(), bytes@, q0);
                            <Name as Packed>::lemma_unique(v.bidder, x0, bytes@, q0);
                        }
                    }
                }
                return Err(e);
            },
        };
        let v = BidRefund { bidder: x0, amount: x1 };
        proof {
            lemma_prefix_concat(v.bidder.packed(), v.amount.packed(), bytes@, q0);
        }
        *pos = p;
        Ok(v)
    }

    fn write(&self, bytes: &mut [u8], pos: &mut usize) -> (r: Result<(), WriteError>) {
        proof {
            assert(self.packed().len() <= 24);
        }
        let n = self.num_bytes();
        let len = bytes.len();
        if *pos > len || n > len - *pos {
            return Err(WriteError::NotEnoughSpace);
        }
        let mut p = *pos;
        let ghost start = *pos as int;
        let ghost buf0 = bytes@;
        let _ = self.bidder.write(bytes, &mut p);
        let _ = self.amount.write(bytes, &mut p);
        proof {
            lemma_written_concat(buf0, start, self.bidder.packed(), self.amount.packed());
        }
        proof {
            assert(self.bidder.packed() + self.amount.packed() =~= self.packed());
        }
        *pos = p;
        Ok(())
    }
}

impl Packed for UserResources {
    open spec fn packed(&self) -> Seq<u8> {
        self.owner.packed() + (self.net_weight.packed() + (self.cpu_weight.packed() + self.ram_bytes.packed()))
    }

    proof fn lemma_unique(a: Self, b: Self, bytes: Seq<u8>, pos: int) {
        let ghost mut q = pos;
        lemma_prefix_concat(a.owner.packed(), a.net_weight.packed() + (a.cpu_weight.packed() + a.ram_bytes.packed()), bytes, q);
        lemma_prefix_concat(b.owner.packed(), b.net_weight.packed() + (b.cpu_weight.packed() + b.ram_bytes.packed()), bytes, q);
        <Name as Packed>::lemma_unique(a.owner, b.owner, bytes, q);
        q = q + a.owner.packed().len();
        lemma_prefix_concat(a.net_weight.packed(), a.cpu_weight.packed() + a.ram_bytes.packed(), bytes, q);
        lemma_prefix_concat(b.net_weight.packed(), b.cpu_weight.packed() + b.ram_bytes.packed(), bytes, q);
        <Asset as Packed>::lemma_unique(a.net_weight, b.net_weight, bytes, q);
        q = q + a.net_weight.packed().len();
        lemma_prefix_concat(a.cpu_weight.packed(), a.ram_bytes.packed(), bytes, q);
        lemma_prefix_concat(b.cpu_weight.packed(), b.ram_bytes.packed(), bytes, q);
        <Asset as Packed>::lemma_unique(a.cpu_weight, b.cpu_weight, bytes, q);
        q = q + a.cpu_weight.packed().len();
        <i64 as Packed>::lemma_unique(a.ram_bytes, b.ram_bytes, bytes, q);
    }

    open spec fn same_value(&self, other: &Self) -> bool {
        &&& self.owner.same_value(&other.owner)
        &&& self.net_weight.same_value(&other.net_weight)
        &&& self.cpu_weight.same_value(&other.cpu_weight)
        &&& self.ram_bytes.same_value(&other.ram_bytes)
    }

    proof fn lemma_injective(a: Self, b: Self) {
        let bytes = a.packed();
        let pos: int = 0;
        assert(bytes.subrange(0, bytes.len() as int) =~= bytes);
        let ghost mut q = pos;
        lemma_prefix_concat(a.owner.packed(), a.net_weight.packed() + (a.cpu_weight.packed() + a.ram_bytes.packed()), bytes, q);
        lemma_prefix_concat(b.owner.packed(), b.net_weight.packed() + (b.cpu_weight.packed() + b.ram_bytes.packed()), bytes, q);
        <Name as Packed>::lemma_unique(a.owner, b.owner, bytes, q);
        <Name as Packed>::lemma_injective(a.owner, b.owner);
        q = q + a.owner.packed().len();
        lemma_prefix_concat(a.net_weight.packed(), a.cpu_weight.packed() + a.ram_bytes.packed(), bytes, q);
        lemma_prefix_concat(b.net_weight.packed(), b.cpu_weight.packed() + b.ram_bytes.packed(), bytes, q);
        <Asset as Packed>::lemma_unique(a.net_weight, b.net_weight, bytes, q);
        <Asset as Packed>::lemma_injective(a.net_weight, b.net_weight);
        q = q + a.net_weight.packed().len();
        lemma_prefix_concat(a.cpu_weight.packed(), a.ram_bytes.packed(), bytes, q);
        lemma_prefix_concat(b.cpu_weight.packed(), b.ram_bytes.packed(), bytes, q);
        <Asset as Packed>::lemma_unique(a.cpu_weight, b.cpu_weight, bytes, q);
        <Asset as Packed>::lemma_injective(a.cpu_weight, b.cpu_weight);
        q = q + a.cpu_weight.packed().len();
        <i64 as Packed>::lemma_unique(a.ram_bytes, b.ram_bytes, bytes, q);
        <i64 as Packed>::lemma_injective(a.ram_bytes, b.ram_bytes);
    }

    fn num_bytes(&self) -> (n: usize) {
        self.owner.num_bytes() + self.net_weight.num_bytes() + self.cpu_weight.num_bytes() + self.ram_bytes.num_bytes()
    }

    fn read(bytes: &[u8], pos: &mut usize) -> (r: Result<Self, ReadError>) {
        let mut p = *pos;
        let ghost q0: int = p as int;
        let x0 = match <Name as Packed>::read(bytes, &mut p) {
            Ok(x) => x,
            Err(e) => {
                proof {
                    assert forall|v: UserResources| !prefix_at(#[trigger] v.packed(), bytes@, *old(pos) as int) by {
                        if prefix_at(v.packed(), bytes@, *old(pos) as int) {
                            lemma_prefix_concat(v.owner.packed(), v.net_weight.packed() + (v.cpu_weight.packed() + v.ram_bytes.packed()), bytes@, q0);
                        }
                    }
                }
                return Err(e);
            },
        };
        let ghost q1: int = p as int;
        let x1 = match <Asset as Packed>::read(bytes, &mut p) {
            Ok(x) => x,
            Err(e) => {
                proof {
                    assert forall|v: UserResources| !prefix_at(#[trigger] v.packed(), bytes@, *old(pos) as int) by {
                        if prefix_at(v.packed(), bytes@, *old(pos) as int) {
                            lemma_prefix_concat(v.owner.packed(), v.net_weight.packed() + (v.cpu_weight.packed() + v.ram_bytes.packed()), bytes@, q0);
                            <Name as Packed>::lemma_unique(v.owner, x0, bytes@, q0);
                            lemma_prefix_concat(v.net_weight.packed(), v.cpu_weight.packed() + v.ram_bytes.packed(), bytes@, q1);
                        }
                    }
                }
                return Err(e);
            },
        };
        let ghost q2: int = p as int;
        let x2 = match <Asset as Packed>::read(bytes, &mut p) {
            Ok(x) => x,
            Err(e) => {
                proof {
                    assert forall|v: UserResources| !prefix_at(#[trigger] v.packed(), bytes@, *old(pos) as int) by {
                        if prefix_at(v.packed(), bytes@, *old(pos) as int) {
                            lemma_prefix_concat(v.owner.packed(), v.net_weight.packed() + (v.cpu_weight.packed() + v.ram_bytes.packed()), bytes@, q0);
                            <Name as Packed>::lemma_unique(v.owner, x0, bytes@, q0);
                            lemma_prefix_concat(v.net_weight.packed(), v.cpu_weight.packed() + v.ram_bytes.packed(), bytes@, q1);
                            <Asset as Packed>::lemma_unique(v.net_weight, x1, bytes@, q1);
                            lemma_prefix_concat(v.cpu_weight.packed(), v.ram_bytes.packed(), bytes@, q2);
                        }
                    }
                }
                return Err(e);
            },
        };
        let ghost q3: int = p as int;
        let x3 = match <i64 as Packed>::read(bytes, &mut p) {
            Ok(x) => x,
            Err(e) => {
                proof {
                    assert forall|v: UserResources| !prefix_at(#[trigger] v.packed(), bytes@, *old(pos) as int) by {
                        if prefix_at(v.packed(), bytes@, *old(pos) as int) {
                            lemma_prefix_concat(v.owner.packed(), v.net_weight.packed() + (v.cpu_weight.packed() + v.ram_bytes.packed()), bytes@, q0);
                            <Name as Packed>::lemma_unique(v.owner, x0, bytes@, q0);
                            lemma_prefix_concat(v.net_weight.packed(), v.cpu_weight.packed() + v.ram_bytes.packed(), bytes@, q1);
                            <Asset as Packed>::lemma_unique(v.net_weight, x1, bytes@, q1);
                            lemma_prefix_concat(v.cpu_weight.packed(), v.ram_bytes.packed(), bytes@, q2);
                            <Asset as Packed>::lemma_unique(v.cpu_weight, x2, bytes@, q2);
                        }
                    }
                }
                return Err(e);
            },
        };
        let v = UserResources { owner: x0, net_weight: x1, cpu_weight: x2, ram_bytes: x3 };
        proof {
            lemma_prefix_concat(v.cpu_weight.packed(), v.ram_bytes.packed(), bytes@, q2);
            lemma_prefix_concat(v.net_weight.packed(), v.cpu_weight.packed() + v.ram_bytes.packed(), bytes@, q1);
            lemma_prefix_concat(v.owner.packed(), v.net_weight.packed() + (v.cpu_weight.packed() + v.ram_bytes.packed()), bytes@, q0);
        }
        *pos = p;
        Ok(v)
    }

    fn write(&self, bytes: &mut [u8], pos: &mut usize) -> (r: Result<(), WriteError>) {
        proof {
            assert(self.packed().len() <= 48);
        }
        let n = self.num_bytes();
        let len = bytes.len();
        if *pos > len || n > len - *pos {
            return Err(WriteError::NotEnoughSpace);
        }
        let mut p = *pos;
        let ghost start = *pos as int;
        let ghost buf0 = bytes@;
        let _ = self.owner.write(bytes, &mut p);
        let _ = self.net_weight.write(bytes, &mut p);
        proof {
            lemma_written_concat(buf0, start, self.owner.packed(), self.net_weight.packed());
        }
        let _ = self.cpu_weight.write(bytes, &mut p);
        proof {
            lemma_written_concat(buf0, start, self.owner.packed() + self.net_weight.packed(), self.cpu_weight.packed());
        }
        let _ = self.ram_bytes.write(bytes, &mut p);
        proof {
            lemma_written_concat(buf0, start, self.owner.packed() + self.net_weight.packed() + self.cpu_weight.packed(), self.ram_bytes.packed());
        }
        proof {
            assert(self.owner.packed() + self.net_weight.packed() + self.cpu_weight.packed() + self.ram_bytes.packed() =~= self.packed());
        }
        *pos = p;
        Ok(())
    }
}

impl Packed for DelegatedBandwidth {
    open spec fn packed(&self) -> Seq<u8> {
        self.from.packed() + (self.to.packed() + (self.net_weight.packed() + self.cpu_weight.packed()))
    }

    proof fn lemma_unique(a: Self, b: Self, bytes: Seq<u8>, pos: int) {
        let ghost mut q = pos;
        lemma_prefix_concat(a.from.packed(), a.to.packed() + (a.net_weight.packed() + a.cpu_weight.packed()), bytes, q);
        lemma_prefix_concat(b.from.packed(), b.to.packed() + (b.net_weight.packed() + b.cpu_weight.packed()), bytes, q);
        <Name as Packed>::lemma_unique(a.from, b.from, bytes, q);
        q = q + a.from.packed().len();
        lemma_prefix_concat(a.to.packed(), a.net_weight.packed() + a.cpu_weight.packed(), bytes, q);
        lemma_prefix_concat(b.to.packed(), b.net_weight.packed() + b.cpu_weight.packed(), bytes, q);
        <Name as Packed>::lemma_unique(a.to, b.to, bytes, q);
        q = q + a.to.packed().len();
        lemma_prefix_concat(a.net_weight.packed(), a.cpu_weight.packed(), bytes, q);
        lemma_prefix_concat(b.net_weight.packed(), b.cpu_weight.packed(), bytes, q);
        <Asset as Packed>::lemma_unique(a.net_weight, b.net_weight, bytes, q);
        q = q + a.net_weight.packed().len();
        <Asset as Packed>::lemma_unique(a.cpu_weight, b.cpu_weight, bytes, q);
    }

    open spec fn same_value(&self, other: &Self) -> bool {
        &&& self.from.same_value(&other.from)
        &&& self.to.same_value(&other.to)
        &&& self.net_weight.same_value(&other.net_weight)
        &&& self.cpu_weight.same_value(&other.cpu_weight)
    }

    proof fn lemma_injective(a: Self, b: Self) {
        let bytes = a.packed();
        let pos: int = 0;
        assert(bytes.subrange(0, bytes.len() as int) =~= bytes);
        let ghost mut q = pos;
        lemma_prefix_concat(a.from.packed(), a.to.packed() + (a.net_weight.packed() + a.cpu_weight.packed()), bytes, q);
        lemma_prefix_concat(b.from.packed(), b.to.packed() + (b.net_weight.packed() + b.cpu_weight.packed()), bytes, q);
        <Name as Packed>::lemma_unique(a.from, b.from, bytes, q);
        <Name as Packed>::lemma_injective(a.from, b.from);
        q = q + a.from.packed().len();
        lemma_prefix_concat(a.to.packed(), a.net_weight.packed() + a.cpu_weight.packed(), bytes, q);
        lemma_prefix_concat(b.to.packed(), b.net_weight.packed() + b.cpu_weight.packed(), bytes, q);
        <Name as Packed>::lemma_unique(a.to, b.to, bytes, q);
        <Name as Packed>::lemma_injective(a.to, b.to);
        q = q + a.to.packed().len();
        lemma_prefix_concat(a.net_weight.packed(), a.cpu_weight.packed(), bytes, q);
        lemma_prefix_concat(b.net_weight.packed(), b.cpu_weight.packed(), bytes, q);
        <Asset as Packed>::lemma_unique(a.net_weight, b.net_weight, bytes, q);
        <Asset as Packed>::lemma_injective(a.net_weight, b.net_weight);
        q = q + a.net_weight.packed().len();
        <Asset as Packed>::lemma_unique(a.cpu_weight, b.cpu_weight, bytes, q);
        <Asset as Packed>::lemma_injective(a.cpu_weight, b.cpu_weight);
    }

    fn num_bytes(&self) -> (n: usize) {
        self.from.num_bytes() + self.to.num_bytes() + self.net_weight.num_bytes() + self.cpu_weight.num_bytes()
    }

    fn read(bytes: &[u8], pos: &mut usize) -> (r: Result<Self, ReadError>) {
        let mut p = *pos;
        let ghost q0: int = p as int;
        let x0 = match <Name as Packed>::read(bytes, &mut p) {
            Ok(x) => x,
            Err(e) => {
                proof {
                    assert forall|v: DelegatedBandwidth| !prefix_at(#[trigger] v.packed(), bytes@, *old(pos) as int) by {
                        if prefix_at(v.packed(), bytes@, *old(pos) as int) {
                            lemma_prefix_concat(v.from.packed(), v.to.packed() + (v.net_weight.packed() + v.cpu_weight.packed()), bytes@, q0);
                        }
                    }
                }
                return Err(e);
            },
        };
        let ghost q1: int = p as int;
        let x1 = match <Name as Packed>::read(bytes, &mut p) {
            Ok(x) => x,
            Err(e) => {
                proof {
                    assert forall|v: DelegatedBandwidth| !prefix_at(#[trigger] v.packed(), bytes@, *old(pos) as int) by {
                        if prefix_at(v.packed(), bytes@, *old(pos) as int) {
                            lemma_prefix_concat(v.from.packed(), v.to.packed() + (v.net_weight.packed() + v.cpu_weight.packed()), bytes@, q0);
                            <Name as Packed>::lemma_unique(v.from, x0, bytes@, q0);
                            lemma_prefix_concat(v.to.packed(), v.net_weight.packed() + v.cpu_weight.packed(), bytes@, q1);
                        }
                    }
                }
                return Err(e);
            },
        };
        let ghost q2: int = p as int;
        let x2 = match <Asset as Packed>::read(bytes, &mut p) {
            Ok(x) => x,
            Err(e) => {
                proof {
                    assert forall|v: DelegatedBandwidth| !prefix_at(#[trigger] v.packed(), bytes@, *old(pos) as int) by {
                        if prefix_at(v.packed(), bytes@, *old(pos) as int) {
                            lemma_prefix_concat(v.from.packed(), v.to.packed() + (v.net_weight.packed() + v.cpu_weight.packed()), bytes@, q0);
                            <Name as Packed>::lemma_unique(v.from, x0, bytes@, q0);
                            lemma_prefix_concat(v.to.packed(), v.net_weight.packed() + v.cpu_weight.packed(), bytes@, q1);
                            <Name as Packed>::lemma_unique(v.to, x1, bytes@, q1);
                            lemma_prefix_concat(v.net_weight.packed(), v.cpu_weight.packed(), bytes@, q2);
                        }
                    }
                }
                return Err(e);
            },
        };
        let ghost q3: int = p as int;
        let x3 = match <Asset as Packed>::read(bytes, &mut p) {
            Ok(x) => x,
            Err(e) => {
                proof {
                    assert forall|v: DelegatedBandwidth| !prefix_at(#[trigger] v.packed(), bytes@, *old(pos) as int) by {
                        if prefix_at(v.packed(), bytes@, *old(pos) as int) {
                            lemma_prefix_concat(v.from.packed(), v.to.packed() + (v.net_weight.packed() + v.cpu_weight.packed()), bytes@, q0);
                            <Name as Packed>::lemma_unique(v.from, x0, bytes@, q0);
                            lemma_prefix_concat(v.to.packed(), v.net_weight.packed() + v.cpu_weight.packed(), bytes@, q1);
                            <Name as Packed>::lemma_unique(v.to, x1, bytes@, q1);
                            lemma_prefix_concat(v.net_weight.packed(), v.cpu_weight.packed(), bytes@, q2);
                            <Asset as Packed>::lemma_unique(v.net_weight, x2, bytes@, q2);
                        }
                    }
                }
                return Err(e);
            },
        };
        let v = DelegatedBandwidth { from: x0, to: x1, net_weight: x2, cpu_weight: x3 };
        proof {
            lemma_prefix_concat(v.net_weight.packed(), v.cpu_weight.packed(), bytes@, q2);
            lemma_prefix_concat(v.to.packed(), v.net_weight.packed() + v.cpu_weight.packed(), bytes@, q1);
            lemma_prefix_concat(v.from.packed(), v.to.packed() + (v.net_weight.packed() + v.cpu_weight.packed()), bytes@, q0);
        }
        *pos = p;
        Ok(v)
    }

    fn write(&self, bytes: &mut [u8], pos: &mut usize) -> (r: Result<(), WriteError>) {
        proof {
            assert(self.packed().len() <= 48);
        }
        let n = self.num_bytes();
        let len = bytes.len();
        if *pos > len || n > len - *pos {
            return Err(WriteError::NotEnoughSpace);
        }
        let mut p = *pos;
        let ghost start = *pos as int;
        let ghost buf0 = bytes@;
        let _ = self.from.write(bytes, &mut p);
        let _ = self.to.write(bytes, &mut p);
        proof {
            lemma_written_concat(buf0, start, self.from.packed(), self.to.packed());
        }
        let _ = self.net_weight.write(bytes, &mut p);
        proof {
            lemma_written_concat(buf0, start, self.from.packed() + self.to.packed(), self.net_weight.packed());
        }
        let _ = self.cpu_weight.write(bytes, &mut p);
        proof {
            lemma_written_concat(buf0, start, self.from.packed() + self.to.packed() + self.net_weight.packed(), self.cpu_weight.packed());
        }
        proof {
            assert(self.from.packed() + self.to.packed() + self.net_weight.packed() + self.cpu_weight.packed() =~= self.packed());
        }
        *pos = p;
        Ok(())
    }
}

impl Packed for RefundRequest {
    open spec fn packed(&self) -> Seq<u8> {
        self.owner.packed() + (self.request_time.packed() + (self.net_amount.packed() + self.cpu_amount.packed()))
    }

    proof fn lemma_unique(a: Self, b: Self, bytes: Seq<u8>, pos: int) {
        let ghost mut q = pos;
        lemma_prefix_concat(a.owner.packed(), a.request_time.packed() + (a.net_amount.packed() + a.cpu_amount.packed()), bytes, q);
        lemma_prefix_concat(b.owner.packed(), b.request_time.packed() + (b.net_amount.packed() + b.cpu_amount.packed()), bytes, q);
        <Name as Packed>::lemma_unique(a.owner, b.owner, bytes, q);
        q = q + a.owner.packed().len();
        lemma_prefix_concat(a.request_time.packed(), a.net_amount.packed() + a.cpu_amount.packed(), bytes, q);
        lemma_prefix_concat(b.request_time.packed(), b.net_amount.packed() + b.cpu_amount.packed(), bytes, q);
        <TimePointSec as Packed>::lemma_unique(a.request_time, b.request_time, bytes, q);
        q = q + a.request_time.packed().len();
        lemma_prefix_concat(a.net_amount.packed(), a.cpu_amount.packed(), bytes, q);
        lemma_prefix_concat(b.net_amount.packed(), b.cpu_amount.packed(), bytes, q);
        <Asset as Packed>::lemma_unique(a.net_amount, b.net_amount, bytes, q);
        q = q + a.net_amount.packed().len();
        <Asset as Packed>::lemma_unique(a.cpu_amount, b.cpu_amount, bytes, q);
    }

    open spec fn same_value(&self, other: &Self) -> bool {
        &&& self.owner.same_value(&other.owner)
        &&& self.request_time.same_value(&other.request_time)
        &&& self.net_amount.same_value(&other.net_amount)
        &&& self.cpu_amount.same_value(&other.cpu_amount)
    }

    proof fn lemma_injective(a: Self, b: Self) {
        let bytes = a.packed();
        let pos: int = 0;
        assert(bytes.subrange(0, bytes.len() as int) =~= bytes);
        let ghost mut q = pos;
        lemma_prefix_concat(a.owner.packed(), a.request_time.packed() + (a.net_amount.packed() + a.cpu_amount.packed()), bytes, q);
        lemma_prefix_concat(b.owner.packed(), b.request_time.packed() + (b.net_amount.packed() + b.cpu_amount.packed()), bytes, q);
        <Name as Packed>::lemma_unique(a.owner, b.owner, bytes, q);
        <Name as Packed>::lemma_injective(a.owner, b.owner);
        q = q + a.owner.packed().len();
        lemma_prefix_concat(a.request_time.packed(), a.net_amount.packed() + a.cpu_amount.packed(), bytes, q);
        lemma_prefix_concat(b.request_time.packed(), b.net_amount.packed() + b.cpu_amount.packed(), bytes, q);
        <TimePointSec as Packed>::lemma_unique(a.request_time, b.request_time, bytes, q);
        <TimePointSec as Packed>::lemma_injective(a.request_time, b.request_time);
        q = q + a.request_time.packed().len();
        lemma_prefix_concat(a.net_amount.packed(), a.cpu_amount.packed(), bytes, q);
        lemma_prefix_concat(b.net_amount.packed(), b.cpu_amount.packed(), bytes, q);
        <Asset as Packed>::lemma_unique(a.net_amount, b.net_amount, bytes, q);
        <Asset as Packed>::lemma_injective(a.net_amount, b.net_amount);
        q = q + a.net_amount.packed().len();
        <Asset as Packed>::lemma_unique(a.cpu_amount, b.cpu_amount, bytes, q);
        <Asset as Packed>::lemma_injective(a.cpu_amount, b.cpu_amount);
    }

    fn num_bytes(&self) -> (n: usize) {
        self.owner.num_bytes() + self.request_time.num_bytes() + self.net_amount.num_bytes() + self.cpu_amount.num_bytes()
    }

    fn read(bytes: &[u8], pos: &mut usize) -> (r: Result<Self, ReadError>) {
        let mut p = *pos;
        let ghost q0: int = p as int;
        let x0 = match <Name as Packed>::read(bytes, &mut p) {
            Ok(x) => x,
            Err(e) => {
                proof {
                    assert forall|v: RefundRequest| !prefix_at(#[trigger] v.packed(), bytes@, *old(pos) as int) by {
                        if prefix_at(v.packed(), bytes@, *old(pos) as int) {
                            lemma_prefix_concat(v.owner.packed(), v.request_time.packed() + (v.net_amount.packed() + v.cpu_amount.packed()), bytes@, q0);
                        }
                    }
                }
                return Err(e);
            },
        };
        let ghost q1: int = p as int;
        let x1 = match <TimePointSec as Packed>::read(bytes, &mut p) {
            Ok(x) => x,
            Err(e) => {
                proof {
                    assert forall|v: RefundRequest| !prefix_at(#[trigger] v.packed(), bytes@, *old(pos) as int) by {
                        if prefix_at(v.packed(), bytes@, *old(pos) as int) {
                            lemma_prefix_concat(v.owner.packed(), v.request_time.packed() + (v.net_amount.packed() + v.cpu_amount.packed()), bytes@, q0);
                            <Name as Packed>::lemma_unique(v.owner, x0, bytes@, q0);
                            lemma_prefix_concat(v.request_time.packed(), v.net_amount.packed() + v.cpu_amount.packed(), bytes@, q1);
                        }
                    }
                }
                return Err(e);
            },
        };
        let ghost q2: int = p as int;
        let x2 = match <Asset as Packed>::read(bytes, &mut p) {
            Ok(x) => x,
            Err(e) => {
                proof {
                    assert forall|v: RefundRequest| !prefix_at(#[trigger] v.packed(), bytes@, *old(pos) as int) by {
                        if prefix_at(v.packed(), bytes@, *old(pos) as int) {
                            lemma_prefix_concat(v.owner.packed(), v.request_time.packed() + (v.net_amount.packed() + v.cpu_amount.packed()), bytes@, q0);
                            <Name as Packed>::lemma_unique(v.owner, x0, bytes@, q0);
                            lemma_prefix_concat(v.request_time.packed(), v.net_amount.packed() + v.cpu_amount.packed(), bytes@, q1);
                            <TimePointSec as Packed>::lemma_unique(v.request_time, x1, bytes@, q1);
                            lemma_prefix_concat(v.net_amount.packed(), v.cpu_amount.packed(), bytes@, q2);
                        }
                    }
                }
                return Err(e);
            },
        };
        let ghost q3: int = p as int;
        let x3 = match <Asset as Packed>::read(bytes, &mut p) {
            Ok(x) => x,
            Err(e) => {
                proof {
                    assert forall|v: RefundRequest| !prefix_at(#[trigger] v.packed(), bytes@, *old(pos) as int) by {
                        if prefix_at(v.packed(), bytes@, *old(pos) as int) {
                            lemma_prefix_concat(v.owner.packed(), v.request_time.packed() + (v.net_amount.packed() + v.cpu_amount.packed()), bytes@, q0);
                            <Name as Packed>::lemma_unique(v.owner, x0, bytes@, q0);
                            lemma_prefix_concat(v.request_time.packed(), v.net_amount.packed() + v.cpu_amount.packed(), bytes@, q1);
                            <TimePointSec as Packed>::lemma_unique(v.request_time, x1, bytes@, q1);
                            lemma_prefix_concat(v.net_amount.packed(), v.cpu_amount.packed(), bytes@, q2);
                            <Asset as Packed>::lemma_unique(v.net_amount, x2, bytes@, q2);
                        }
                    }
                }
                return Err(e);
            },
        };
        let v = RefundRequest { owner: x0, request_time: x1, net_amount: x2, cpu_amount: x3 };
        proof {
            lemma_prefix_concat(v.net_amount.packed(), v.cpu_amount.packed(), bytes@, q2);
            lemma_prefix_concat(v.request_time.packed(), v.net_amount.packed() + v.cpu_amount.packed(), bytes@, q1);
            lemma_prefix_concat(v.owner.packed(), v.request_time.packed() + (v.net_amount.packed() + v.cpu_amount.packed()), bytes@, q0);
        }
        *pos = p;
        Ok(v)
    }

    fn write(&self, bytes: &mut [u8], pos: &mut usize) -> (r: Result<(), WriteError>) {
        proof {
            assert(self.packed().len() <= 44);
        }
        let n = self.num_bytes();
        let len = bytes.len();
        if *pos > len || n > len - *pos {
            return Err(WriteError::NotEnoughSpace);
        }
        let mut p = *pos;
        let ghost start = *pos as int;
        let ghost buf0 = bytes@;
        let _ = self.owner.write(bytes, &mut p);
        let _ = self.request_time.write(bytes, &mut p);
        proof {
            lemma_written_concat(buf0, start, self.owner.packed(), self.request_time.packed());
        }
        let _ = self.net_amount.write(bytes, &mut p);
        proof {
            lemma_written_concat(buf0, start, self.owner.packed() + self.request_time.packed(), self.net_amount.packed());
        }
        let _ = self.cpu_amount.write(bytes, &mut p);
        proof {
            lemma_written_concat(buf0, start, self.owner.packed() + self.request_time.packed() + self.net_amount.packed(), self.cpu_amount.packed());
        }
        proof {
            assert(self.owner.packed() + self.request_time.packed() + self.net_amount.packed() + self.cpu_amount.packed() =~= self.packed());
        }
        *pos = p;
        Ok(())
    }
}

impl Packed for DelegatedXPR {
    open spec fn packed(&self) -> Seq<u8> {
        self.from.packed() + (self.to.packed() + self.quantity.packed())
    }

    proof fn lemma_unique(a: Self, b: Self, bytes: Seq<u8>, pos: int) {
        let ghost mut q = pos;
        lemma_prefix_concat(a.from.packed(), a.to.packed() + a.quantity.packed(), bytes, q);
        lemma_prefix_concat(b.from.packed(), b.to.packed() + b.quantity.packed(), bytes, q);
        <Name as Packed>::lemma_unique(a.from, b.from, bytes, q);
        q = q + a.from.packed().len();
        lemma_prefix_concat(a.to.packed(), a.quantity.packed(), bytes, q);
        lemma_prefix_concat(b.to.packed(), b.quantity.packed(), bytes, q);
        <Name as Packed>::lemma_unique(a.to, b.to, bytes, q);
        q = q + a.to.packed().len();
        <Asset as Packed>::lemma_unique(a.quantity, b.quantity, bytes, q);
    }

    open spec fn same_value(&self, other: &Self) -> bool {
        &&& self.from.same_value(&other.from)
        &&& self.to.same_value(&other.to)
        &&& self.quantity.same_value(&other.quantity)
    }

    proof fn lemma_injective(a: Self, b: Self) {
        let bytes = a.packed();
        let pos: int = 0;
        assert(bytes.subrange(0, bytes.len() as int) =~= bytes);
        let ghost mut q = pos;
        lemma_prefix_concat(a.from.packed(), a.to.packed() + a.quantity.packed(), bytes, q);
        lemma_prefix_concat(b.from.packed(), b.to.packed() + b.quantity.packed(), bytes, q);
        <Name as Packed>::lemma_unique(a.from, b.from, bytes, q);
        <Name as Packed>::lemma_injective(a.from, b.from);
        q = q + a.from.packed().len();
        lemma_prefix_concat(a.to.packed(), a.quantity.packed(), bytes, q);
        lemma_prefix_concat(b.to.packed(), b.quantity.packed(), bytes, q);
        <Name as Packed>::lemma_unique(a.to, b.to, bytes, q);
        <Name as Packed>::lemma_injective(a.to, b.to);
        q = q + a.to.packed().len();
        <Asset as Packed>::lemma_unique(a.quantity, b.quantity, bytes, q);
        <Asset as Packed>::lemma_injective(a.quantity, b.quantity);
    }

    fn num_bytes(&self) -> (n: usize) {
        self.from.num_bytes() + self.to.num_bytes() + self.quantity.num_bytes()
    }

    fn read(bytes: &[u8], pos: &mut usize) -> (r: Result<Self, ReadError>) {
        let mut p = *pos;
        let ghost q0: int = p as int;
        let x0 = match <Name as Packed>::read(bytes, &mut p) {
            Ok(x) => x,
            Err(e) => {
                proof {
                    assert forall|v: DelegatedXPR| !prefix_at(#[trigger] v.packed(), bytes@, *old(pos) as int) by {
                        if prefix_at(v.packed(), bytes@, *old(pos) as int) {
                            lemma_prefix_concat(v.from.packed(), v.to.packed() + v.quantity.packed(), bytes@, q0);
                        }
                    }
                }
                return Err(e);
            },
        };
        let ghost q1: int = p as int;
        let x1 = match <Name as Packed>::read(bytes, &mut p) {
            Ok(x) => x,
            Err(e) => {
                proof {
                    assert forall|v: DelegatedXPR| !prefix_at(#[trigger] v.packed(), bytes@, *old(pos) as int) by {
                        if prefix_at(v.packed(), bytes@, *old(pos) as int) {
                            lemma_prefix_concat(v.from.packed(), v.to.packed() + v.quantity.packed(), bytes@, q0);
                            <Name as Packed>::lemma_unique(v.from, x0, bytes@, q0);
                            lemma_prefix_concat(v.to.packed(), v.quantity.packed(), bytes@, q1);
                        }
                    }
                }
                return Err(e);
            },
        };
        let ghost q2: int = p as int;
        let x2 = match <Asset as Packed>::read(bytes, &mut p) {
            Ok(x) => x,
            Err(e) => {
                proof {
                    assert forall|v: DelegatedXPR| !prefix_at(#[trigger] v.packed(), bytes@, *old(pos) as int) by {
                        if prefix_at(v.packed(), bytes@, *old(pos) as int) {
                            lemma_prefix_concat(v.from.packed(), v.to.packed() + v.quantity.packed(), bytes@, q0);
                            <Name as Packed>::lemma_unique(v.from, x0, bytes@, q0);
                            lemma_prefix_concat(v.to.packed(), v.quantity.packed(), bytes@, q1);
                            <Name as Packed>::lemma_unique(v.to, x1, bytes@, q1);
                        }
                    }
                }
                return Err(e);
            },
        };
        let v = DelegatedXPR { from: x0, to: x1, quantity: x2 };
        proof {
            lemma_prefix_concat(v.to.packed(), v.quantity.packed(), bytes@, q1);
            lemma_prefix_concat(v.from.packed(), v.to.packed() + v.quantity.packed(), bytes@, q0);
        }
        *pos = p;
        Ok(v)
    }

    fn write(&self, bytes: &mut [u8], pos: &mut usize) -> (r: Result<(), WriteError>) {
        proof {
            assert(self.packed().len() <= 32);
        }
        let n = self.num_bytes();
        let len = bytes.len();
        if *pos > len || n > len - *pos {
            return Err(WriteError::NotEnoughSpace);
        }
        let mut p = *pos;
        let ghost start = *pos as int;
        let ghost buf0 = bytes@;
        let _ = self.from.write(bytes, &mut p);
        let _ = self.to.write(bytes, &mut p);
        proof {
            lemma_written_concat(buf0, start, self.from.packed(), self.to.packed());
        }
        let _ = self.quantity.write(bytes, &mut p);
        proof {
            lemma_written_concat(buf0, start, self.from.packed() + self.to.packed(), self.quantity.packed());
        }
        proof {
            assert(self.from.packed() + self.to.packed() + self.quantity.packed() =~= self.packed());
        }
        *pos = p;
        Ok(())
    }
}

impl Packed for VotersXPR {
    open spec fn packed(&self) -> Seq<u8> {
        self.owner.packed() + (self.staked.packed() + (self.isqualified.packed() + (self.claimamount.packed() + (self.lastclaim.packed() + (self.startstake.packed() + self.startqualif.packed())))))
    }

    proof fn lemma_unique(a: Self, b: Self, bytes: Seq<u8>, pos: int) {
        let ghost mut q = pos;
        lemma_prefix_concat(a.owner.packed(), a.staked.packed() + (a.isqualified.packed() + (a.claimamount.packed() + (a.lastclaim.packed() + (a.startstake.packed() + a.startqualif.packed())))), bytes, q);
        lemma_prefix_concat(b.owner.packed(), b.staked.packed() + (b.isqualified.packed() + (b.claimamount.packed() + (b.lastclaim.packed() + (b.startstake.packed() + b.startqualif.packed())))), bytes, q);
        <Name as Packed>::lemma_unique(a.owner, b.owner, bytes, q);
        q = q + a.owner.packed().len();
        lemma_prefix_concat(a.staked.packed(), a.isqualified.packed() + (a.claimamount.packed() + (a.lastclaim.packed() + (a.startstake.packed() + a.startqualif.packed()))), bytes, q);
        lemma_prefix_concat(b.staked.packed(), b.isqualified.packed() + (b.claimamount.packed() + (b.lastclaim.packed() + (b.startstake.packed() + b.startqualif.packed()))), bytes, q);
        <u64 as Packed>::lemma_unique(a.staked, b.staked, bytes, q);
        q = q + a.staked.packed().len();
        lemma_prefix_concat(a.isqualified.packed(), a.claimamount.packed() + (a.lastclaim.packed() + (a.startstake.packed() + a.startqualif.packed())), bytes, q);
        lemma_prefix_concat(b.isqualified.packed(), b.claimamount.packed() + (b.lastclaim.packed() + (b.startstake.packed() + b.startqualif.packed())), bytes, q);
        <bool as Packed>::lemma_unique(a.isqualified, b.isqualified, bytes, q);
        q = q + a.isqualified.packed().len();
        lemma_prefix_concat(a.claimamount.packed(), a.lastclaim.packed() + (a.startstake.packed() + a.startqualif.packed()), bytes, q);
        lemma_prefix_concat(b.claimamount.packed(), b.lastclaim.packed() + (b.startstake.packed() + b.startqualif.packed()), bytes, q);
        <u64 as Packed>::lemma_unique(a.claimamount, b.claimamount, bytes, q);
        q = q + a.claimamount.packed().len();
        lemma_prefix_concat(a.lastclaim.packed(), a.startstake.packed() + a.startqualif.packed(), bytes, q);
        lemma_prefix_concat(b.lastclaim.packed(), b.startstake.packed() + b.startqualif.packed(), bytes, q);
        <u64 as Packed>::lemma_unique(a.lastclaim, b.lastclaim, bytes, q);
        q = q + a.lastclaim.packed().len();
        lemma_prefix_concat(a.startstake.packed(), a.startqualif.packed(), bytes, q);
        lemma_prefix_concat(b.startstake.packed(), b.startqualif.packed(), bytes, q);
        <Option<u64> as Packed>::lemma_unique(a.startstake, b.startstake, bytes, q);
        q = q + a.startstake.packed().len();
        <Option<bool> as Packed>::lemma_unique(a.startqualif, b.startqualif, bytes, q);
    }

    open spec fn same_value(&self, other: &Self) -> bool {
        &&& self.owner.same_value(&other.owner)
        &&& self.staked.same_value(&other.staked)
        &&& self.isqualified.same_value(&other.isqualified)
        &&& self.claimamount.same_value(&other.claimamount)
        &&& self.lastclaim.same_value(&other.lastclaim)
        &&& self.startstake.same_value(&other.startstake)
        &&& self.startqualif.same_value(&other.startqualif)
    }

    proof fn lemma_injective(a: Self, b: Self) {
        let bytes = a.packed();
        let pos: int = 0;
        assert(bytes.subrange(0, bytes.len() as int) =~= bytes);
        let ghost mut q = pos;
        lemma_prefix_concat(a.owner.packed(), a.staked.packed() + (a.isqualified.packed() + (a.claimamount.packed() + (a.lastclaim.packed() + (a.startstake.packed() + a.startqualif.packed())))), bytes, q);
        lemma_prefix_concat(b.owner.packed(), b.staked.packed() + (b.isqualified.packed() + (b.claimamount.packed() + (b.lastclaim.packed() + (b.startstake.packed() + b.startqualif.packed())))), bytes, q);
        <Name as Packed>::lemma_unique(a.owner, b.owner, bytes, q);
        <Name as Packed>::lemma_injective(a.owner, b.owner);
        q = q + a.owner.packed().len();
        lemma_prefix_concat(a.staked.packed(), a.isqualified.packed() + (a.claimamount.packed() + (a.lastclaim.packed() + (a.startstake.packed() + a.startqualif.packed()))), bytes, q);
        lemma_prefix_concat(b.staked.packed(), b.isqualified.packed() + (b.claimamount.packed() + (b.lastclaim.packed() + (b.startstake.packed() + b.startqualif.packed()))), bytes, q);
        <u64 as Packed>::lemma_unique(a.staked, b.staked, bytes, q);
        <u64 as Packed>::lemma_injective(a.staked, b.staked);
        q = q + a.staked.packed().len();
        lemma_prefix_concat(a.isqualified.packed(), a.claimamount.packed() + (a.lastclaim.packed() + (a.startstake.packed() + a.startqualif.packed())), bytes, q);
        lemma_prefix_concat(b.isqualified.packed(), b.claimamount.packed() + (b.lastclaim.packed() + (b.startstake.packed() + b.startqualif.packed())), bytes, q);
        <bool as Packed>::lemma_unique(a.isqualified, b.isqualified, bytes, q);
        <bool as Packed>::lemma_injective(a.isqualified, b.isqualified);
        q = q + a.isqualified.packed().len();
        lemma_prefix_concat(a.claimamount.packed(), a.lastclaim.packed() + (a.startstake.packed() + a.startqualif.packed()), bytes, q);
        lemma_prefix_concat(b.claimamount.packed(), b.lastclaim.packed() + (b.startstake.packed() + b.startqualif.packed()), bytes, q);
        <u64 as Packed>::lemma_unique(a.claimamount, b.claimamount, bytes, q);
        <u64 as Packed>::lemma_injective(a.claimamount, b.claimamount);
        q = q + a.claimamount.packed().len();
        lemma_prefix_concat(a.lastclaim.packed(), a.startstake.packed() + a.startqualif.packed(), bytes, q);
        lemma_prefix_concat(b.lastclaim.packed(), b.startstake.packed() + b.startqualif.packed(), bytes, q);
        <u64 as Packed>::lemma_unique(a.lastclaim, b.lastclaim, bytes, q);
        <u64 as Packed>::lemma_injective(a.lastclaim, b.lastclaim);
        q = q + a.lastclaim.packed().len();
        lemma_prefix_concat(a.startstake.packed(), a.startqualif.packed(), bytes, q);
        lemma_prefix_concat(b.startstake.packed(), b.startqualif.packed(), bytes, q);
        <Option<u64> as Packed>::lemma_unique(a.startstake, b.startstake, bytes, q);
        <Option<u64> as Packed>::lemma_injective(a.startstake, b.startstake);
        q = q + a.startstake.packed().len();
        <Option<bool> as Packed>::lemma_unique(a.startqualif, b.startqualif, bytes, q);
        <Option<bool> as Packed>::lemma_injective(a.startqualif, b.startqualif);
    }

    fn num_bytes(&self) -> (n: usize) {
        self.owner.num_bytes() + self.staked.num_bytes() + self.isqualified.num_bytes() + self.claimamount.num_bytes() + self.lastclaim.num_bytes() + self.startstake.num_bytes() + self.startqualif.num_bytes()
    }

    fn read(bytes: &[u8], pos: &mut usize) -> (r: Result<Self, ReadError>) {
        let mut p = *pos;
        let ghost q0: int = p as int;
        let x0 = match <Name as Packed>::read(bytes, &mut p) {
            Ok(x) => x,
            Err(e) => {
                proof {
                    assert forall|v: VotersXPR| !prefix_at(#[trigger] v.packed(), bytes@, *old(pos) as int) by {
                        if prefix_at(v.packed(), bytes@, *old(pos) as int) {
                            lemma_prefix_concat(v.owner.packed(), v.staked.packed() + (v.isqualified.packed() + (v.claimamount.packed() + (v.lastclaim.packed() + (v.startstake.packed() + v.startqualif.packed())))), bytes@, q0);
                        }
                    }
                }
                return Err(e);
            },
        };
        let ghost q1: int = p as int;
        let x1 = match <u64 as Packed>::read(bytes, &mut p) {
            Ok(x) => x,
            Err(e) => {
                proof {
                    assert forall|v: VotersXPR| !prefix_at(#[trigger] v.packed(), bytes@, *old(pos) as int) by {
                        if prefix_at(v.packed(), bytes@, *old(pos) as int) {
                            lemma_prefix_concat(v.owner.packed(), v.staked.packed() + (v.isqualified.packed() + (v.claimamount.packed() + (v.lastclaim.packed() + (v.startstake.packed() + v.startqualif.packed())))), bytes@, q0);
                            <Name as Packed>::lemma_unique(v.owner, x0, bytes@, q0);
                            lemma_prefix_concat(v.staked.packed(), v.isqualified.packed() + (v.claimamount.packed() + (v.lastclaim.packed() + (v.startstake.packed() + v.startqualif.packed()))), bytes@, q1);
                        }
                    }
                }
                return Err(e);
            },
        };
        let ghost q2: int = p as int;
        let x2 = match <bool as Packed>::read(bytes, &mut p) {
            Ok(x) => x,
            Err(e) => {
                proof {
                    assert forall|v: VotersXPR| !prefix_at(#[trigger] v.packed(), bytes@, *old(pos) as int) by {
                        if prefix_at(v.packed(), bytes@, *old(pos) as int) {
                            lemma_prefix_concat(v.owner.packed(), v.staked.packed() + (v.isqualified.packed() + (v.claimamount.packed() + (v.lastclaim.packed() + (v.startstake.packed() + v.startqualif.packed())))), bytes@, q0);
                            <Name as Packed>::lemma_unique(v.owner, x0, bytes@, q0);
                            lemma_prefix_concat(v.staked.packed(), v.isqualified.packed() + (v.claimamount.packed() + (v.lastclaim.packed() + (v.startstake.packed() + v.startqualif.packed()))), bytes@, q1);
                            <u64 as Packed>::lemma_unique(v.staked, x1, bytes@, q1);
                            lemma_prefix_concat(v.isqualified.packed(), v.claimamount.packed() + (v.lastclaim.packed() + (v.startstake.packed() + v.startqualif.packed())), bytes@, q2);
                        }
                    }
                }
                return Err(e);
            },
        };
        let ghost q3: int = p as int;
        let x3 = match <u64 as Packed>::read(bytes, &mut p) {
            Ok(x) => x,
            Err(e) => {
                proof {
                    assert forall|v: VotersXPR| !prefix_at(#[trigger] v.packed(), bytes@, *old(pos) as int) by {
                        if prefix_at(v.packed(), bytes@, *old(pos) as int) {
                            lemma_prefix_concat(v.owner.packed(), v.staked.packed() + (v.isqualified.packed() + (v.claimamount.packed() + (v.lastclaim.packed() + (v.startstake.packed() + v.startqualif.packed())))), bytes@, q0);
                            <Name as Packed>::lemma_unique(v.owner, x0, bytes@, q0);
                            lemma_prefix_concat(v.staked.packed(), v.isqualified.packed() + (v.claimamount.packed() + (v.lastclaim.packed() + (v.startstake.packed() + v.startqualif.packed()))), bytes@, q1);
                            <u64 as Packed>::lemma_unique(v.staked, x1, bytes@, q1);
                            lemma_prefix_concat(v.isqualified.packed(), v.claimamount.packed() + (v.lastclaim.packed() + (v.startstake.packed() + v.startqualif.packed())), bytes@, q2);
                            <bool as Packed>::lemma_unique(v.isqualified, x2, bytes@, q2);
                            lemma_prefix_concat(v.claimamount.packed(), v.lastclaim.packed() + (v.startstake.packed() + v.startqualif.packed()), bytes@, q3);
                        }
                    }
                }
                return Err(e);
            },
        };
        let ghost q4: int = p as int;
        let x4 = match <u64 as Packed>::read(bytes, &mut p) {
            Ok(x) => x,
            Err(e) => {
                proof {
                    assert forall|v: VotersXPR| !prefix_at(#[trigger] v.packed(), bytes@, *old(pos) as int) by {
                        if prefix_at(v.packed(), bytes@, *old(pos) as int) {
                            lemma_prefix_concat(v.owner.packed(), v.staked.packed() + (v.isqualified.packed() + (v.claimamount.packed() + (v.lastclaim.packed() + (v.startstake.packed() + v.startqualif.packed())))), bytes@, q0);
                            <Name as Packed>::lemma_unique(v.owner, x0, bytes@, q0);
                            lemma_prefix_concat(v.staked.packed(), v.isqualified.packed() + (v.claimamount.packed() + (v.lastclaim.packed() + (v.startstake.packed() + v.startqualif.packed()))), bytes@, q1);
                            <u64 as Packed>::lemma_unique(v.staked, x1, bytes@, q1);
                            lemma_prefix_concat(v.isqualified.packed(), v.claimamount.packed() + (v.lastclaim.packed() + (v.startstake.packed() + v.startqualif.packed())), bytes@, q2);
                            <bool as Packed>::lemma_unique(v.isqualified, x2, bytes@, q2);
                            lemma_prefix_concat(v.claimamount.packed(), v.lastclaim.packed() + (v.startstake.packed() + v.startqualif.packed()), bytes@, q3);
                            <u64 as Packed>::lemma_unique(v.claimamount, x3, bytes@, q3);
                            lemma_prefix_concat(v.lastclaim.packed(), v.startstake.packed() + v.startqualif.packed(), bytes@, q4);
                        }
                    }
                }
                return Err(e);
            },
        };
        let ghost q5: int = p as int;
        let x5 = match <Option<u64> as Packed>::read(bytes, &mut p) {
            Ok(x) => x,
            Err(e) => {
                proof {
                    assert forall|v: VotersXPR| !prefix_at(#[trigger] v.packed(), bytes@, *old(pos) as int) by {
                        if prefix_at(v.packed(), bytes@, *old(pos) as int) {
                            lemma_prefix_concat(v.owner.packed(), v.staked.packed() + (v.isqualified.packed() + (v.claimamount.packed() + (v.lastclaim.packed() + (v.startstake.packed() + v.startqualif.packed())))), bytes@, q0);
                            <Name as Packed>::lemma_unique(v.owner, x0, bytes@, q0);
                            lemma_prefix_concat(v.staked.packed(), v.isqualified.packed() + (v.claimamount.packed() + (v.lastclaim.packed() + (v.startstake.packed() + v.startqualif.packed()))), bytes@, q1);
                            <u64 as Packed>::lemma_unique(v.staked, x1, bytes@, q1);
                            lemma_prefix_concat(v.isqualified.packed(), v.claimamount.packed() + (v.lastclaim.packed() + (v.startstake.packed() + v.startqualif.packed())), bytes@, q2);
                            <bool as Packed>::lemma_unique(v.isqualified, x2, bytes@, q2);
                            lemma_prefix_concat(v.claimamount.packed(), v.lastclaim.packed() + (v.startstake.packed() + v.startqualif.packed()), bytes@, q3);
                            <u64 as Packed>::lemma_unique(v.claimamount, x3, bytes@, q3);
                            lemma_prefix_concat(v.lastclaim.packed(), v.startstake.packed() + v.startqualif.packed(), bytes@, q4);
                            <u64 as Packed>::lemma_unique(v.lastclaim, x4, bytes@, q4);
                            lemma_prefix_concat(v.startstake.packed(), v.startqualif.packed(), bytes@, q5);
                        }
                    }
                }
                return Err(e);
            },
        };
        let ghost q6: int = p as int;
        let x6 = match <Option<bool> as Packed>::read(bytes, &mut p) {
            Ok(x) => x,
            Err(e) => {
                proof {
                    assert forall|v: VotersXPR| !prefix_at(#[trigger] v.packed(), bytes@, *old(pos) as int) by {
                        if prefix_at(v.packed(), bytes@, *old(pos) as int) {
                            lemma_prefix_concat(v.owner.packed(), v.staked.packed() + (v.isqualified.packed() + (v.claimamount.packed() + (v.lastclaim.packed() + (v.startstake.packed() + v.startqualif.packed())))), bytes@, q0);
                            <Name as Packed>::lemma_unique(v.owner, x0, bytes@, q0);
                            lemma_prefix_concat(v.staked.packed(), v.isqualified.packed() + (v.claimamount.packed() + (v.lastclaim.packed() + (v.startstake.packed() + v.startqualif.packed()))), bytes@, q1);
                            <u64 as Packed>::lemma_unique(v.staked, x1, bytes@, q1);
                            lemma_prefix_concat(v.isqualified.packed(), v.claimamount.packed() + (v.lastclaim.packed() + (v.startstake.packed() + v.startqualif.packed())), bytes@, q2);
                            <bool as Packed>::lemma_unique(v.isqualified, x2, bytes@, q2);
                            lemma_prefix_concat(v.claimamount.packed(), v.lastclaim.packed() + (v.startstake.packed() + v.startqualif.packed()), bytes@, q3);
                            <u64 as Packed>::lemma_unique(v.claimamount, x3, bytes@, q3);
                            lemma_prefix_concat(v.lastclaim.packed(), v.startstake.packed() + v.startqualif.packed(), bytes@, q4);
                            <u64 as Packed>::lemma_unique(v.lastclaim, x4, bytes@, q4);
                            lemma_prefix_concat(v.startstake.packed(), v.startqualif.packed(), bytes@, q5);
                            <Option<u64> as Packed>::lemma_unique(v.startstake, x5, bytes@, q5);
                        }
                    }
                }
                return Err(e);
            },
        };
        let v = VotersXPR { owner: x0, staked: x1, isqualified: x2, claimamount: x3, lastclaim: x4, startstake: x5, startqualif: x6 };
        proof {
            lemma_prefix_concat(v.startstake.packed(), v.startqualif.packed(), bytes@, q5);
            lemma_prefix_concat(v.lastclaim.packed(), v.startstake.packed() + v.startqualif.packed(), bytes@, q4);
            lemma_prefix_concat(v.claimamount.packed(), v.lastclaim.packed() + (v.startstake.packed() + v.startqualif.packed()), bytes@, q3);
            lemma_prefix_concat(v.isqualified.packed(), v.claimamount.packed() + (v.lastclaim.packed() + (v.startstake.packed() + v.startqualif.packed())), bytes@, q2);
            lemma_prefix_concat(v.staked.packed(), v.isqualified.packed() + (v.claimamount.packed() + (v.lastclaim.packed() + (v.startstake.packed() + v.startqualif.packed()))), bytes@, q1);
            lemma_prefix_concat(v.owner.packed(), v.staked.packed() + (v.isqualified.packed() + (v.claimamount.packed() + (v.lastclaim.packed() + (v.startstake.packed() + v.startqualif.packed())))), bytes@, q0);
        }
        *pos = p;
        Ok(v)
    }

    fn write(&self, bytes: &mut [u8], pos: &mut usize) -> (r: Result<(), WriteError>) {
        proof {
            assert(self.packed().len() <= 44);
        }
        let n = self.num_bytes();
        let len = bytes.len();
        if *pos > len || n > len - *pos {
            return Err(WriteError::NotEnoughSpace);
        }
        let mut p = *pos;
        let ghost start = *pos as int;
        let ghost buf0 = bytes@;
        let _ = self.owner.write(bytes, &mut p);
        let _ = self.staked.write(bytes, &mut p);
        proof {
            lemma_written_concat(buf0, start, self.owner.packed(), self.staked.packed());
        }
        let _ = self.isqualified.write(bytes, &mut p);
        proof {
            lemma_written_concat(buf0, start, self.owner.packed() + self.staked.packed(), self.isqualified.packed());
        }
        let _ = self.claimamount.write(bytes, &mut p);
        proof {
            lemma_written_concat(buf0, start, self.owner.packed() + self.staked.packed() + self.isqualified.packed(), self.claimamount.packed());
        }
        let _ = self.lastclaim.write(bytes, &mut p);
        proof {
            lemma_written_concat(buf0, start, self.owner.packed() + self.staked.packed() + self.isqualified.packed() + self.claimamount.packed(), self.lastclaim.packed());
        }
        let _ = self.startstake.write(bytes, &mut p);
        proof {
            lemma_written_concat(buf0, start, self.owner.packed() + self.staked.packed() + self.isqualified.packed() + self.claimamount.packed() + self.lastclaim.packed(), self.startstake.packed());
        }
        let _ = self.startqualif.write(bytes, &mut p);
        proof {
            lemma_written_concat(buf0, start, self.owner.packed() + self.staked.packed() + self.isqualified.packed() + self.claimamount.packed() + self.lastclaim.packed() + self.startstake.packed(), self.startqualif.packed());
        }
        proof {
            assert(self.owner.packed() + self.staked.packed() + self.isqualified.packed() + self.claimamount.packed() + self.lastclaim.packed() + self.startstake.packed() + self.startqualif.packed() =~= self.packed());
        }
        *pos = p;
        Ok(())
    }
}

impl Packed for XPRRefundRequest {
    open spec fn packed(&self) -> Seq<u8> {
        self.owner.packed() + (self.request_time.packed() + self.quantity.packed())
    }

    proof fn lemma_unique(a: Self, b: Self, bytes: Seq<u8>, pos: int) {
        let ghost mut q = pos;
        lemma_prefix_concat(a.owner.packed(), a.request_time.packed() + a.quantity.packed(), bytes, q);
        lemma_prefix_concat(b.owner.packed(), b.request_time.packed() + b.quantity.packed(), bytes, q);
        <Name as Packed>::lemma_unique(a.owner, b.owner, bytes, q);
        q = q + a.owner.packed().len();
        lemma_prefix_concat(a.request_time.packed(), a.quantity.packed(), bytes, q);
        lemma_prefix_concat(b.request_time.packed(), b.quantity.packed(), bytes, q);
        <TimePointSec as Packed>::lemma_unique(a.request_time, b.request_time, bytes, q);
        q = q + a.request_time.packed().len();
        <Asset as Packed>::lemma_unique(a.quantity, b.quantity, bytes, q);
    }

    open spec fn same_value(&self, other: &Self) -> bool {
        &&& self.owner.same_value(&other.owner)
        &&& self.request_time.same_value(&other.request_time)
        &&& self.quantity.same_value(&other.quantity)
    }

    proof fn lemma_injective(a: Self, b: Self) {
        let bytes = a.packed();
        let pos: int = 0;
        assert(bytes.subrange(0, bytes.len() as int) =~= bytes);
        let ghost mut q = pos;
        lemma_prefix_concat(a.owner.packed(), a.request_time.packed() + a.quantity.packed(), bytes, q);
        lemma_prefix_concat(b.owner.packed(), b.request_time.packed() + b.quantity.packed(), bytes, q);
        <Name as Packed>::lemma_unique(a.owner, b.owner, bytes, q);
        <Name as Packed>::lemma_injective(a.owner, b.owner);
        q = q + a.owner.packed().len();
        lemma_prefix_concat(a.request_time.packed(), a.quantity.packed(), bytes, q);
        lemma_prefix_concat(b.request_time.packed(), b.quantity.packed(), bytes, q);
        <TimePointSec as Packed>::lemma_unique(a.request_time, b.request_time, bytes, q);
        <TimePointSec as Packed>::lemma_injective(a.request_time, b.request_time);
        q = q + a.request_time.packed().len();
        <Asset as Packed>::lemma_unique(a.quantity, b.quantity, bytes, q);
        <Asset as Packed>::lemma_injective(a.quantity, b.quantity);
    }

    fn num_bytes(&self) -> (n: usize) {
        self.owner.num_bytes() + self.request_time.num_bytes() + self.quantity.num_bytes()
    }

    fn read(bytes: &[u8], pos: &mut usize) -> (r: Result<Self, ReadError>) {
        let mut p = *pos;
        let ghost q0: int = p as int;
        let x0 = match <Name as Packed>::read(bytes, &mut p) {
            Ok(x) => x,
            Err(e) => {
                proof {
                    assert forall|v: XPRRefundRequest| !prefix_at(#[trigger] v.packed(), bytes@, *old(pos) as int) by {
                        if prefix_at(v.packed(), bytes@, *old(pos) as int) {
                            lemma_prefix_concat(v.owner.packed(), v.request_time.packed() + v.quantity.packed(), bytes@, q0);
                        }
                    }
                }
                return Err(e);
            },
        };
        let ghost q1: int = p as int;
        let x1 = match <TimePointSec as Packed>::read(bytes, &mut p) {
            Ok(x) => x,
            Err(e) => {
                proof {
                    assert forall|v: XPRRefundRequest| !prefix_at(#[trigger] v.packed(), bytes@, *old(pos) as int) by {
                        if prefix_at(v.packed(), bytes@, *old(pos) as int) {
                            lemma_prefix_concat(v.owner.packed(), v.request_time.packed() + v.quantity.packed(), bytes@, q0);
                            <Name as Packed>::lemma_unique(v.owner, x0, bytes@, q0);
                            lemma_prefix_concat(v.request_time.packed(), v.quantity.packed(), bytes@, q1);
                        }
                    }
                }
                return Err(e);
            },
        };
        let ghost q2: int = p as int;
        let x2 = match <Asset as Packed>::read(bytes, &mut p) {
            Ok(x) => x,
            Err(e) => {
                proof {
                    assert forall|v: XPRRefundRequest| !prefix_at(#[trigger] v.packed(), bytes@, *old(pos) as int) by {
                        if prefix_at(v.packed(), bytes@, *old(pos) as int) {
                            lemma_prefix_concat(v.owner.packed(), v.request_time.packed() + v.quantity.packed(), bytes@, q0);
                            <Name as Packed>::lemma_unique(v.owner, x0, bytes@, q0);
                            lemma_prefix_concat(v.request_time.packed(), v.quantity.packed(), bytes@, q1);
                            <TimePointSec as Packed>::lemma_unique(v.request_time, x1, bytes@, q1);
                        }
                    }
                }
                return Err(e);
            },
        };
        let v = XPRRefundRequest { owner: x0, request_time: x1, quantity: x2 };
        proof {
            lemma_prefix_concat(v.request_time.packed(), v.quantity.packed(), bytes@, q1);
            lemma_prefix_concat(v.owner.packed(), v.request_time.packed() + v.quantity.packed(), bytes@, q0);
        }
        *pos = p;
        Ok(v)
    }

    fn write(&self, bytes: &mut [u8], pos: &mut usize) -> (r: Result<(), WriteError>) {
        proof {
            assert(self.packed().len() <= 28);
        }
        let n = self.num_bytes();
        let len = bytes.len();
        if *pos > len || n > len - *pos {
            return Err(WriteError::NotEnoughSpace);
        }
        let mut p = *pos;
        let ghost start = *pos as int;
        let ghost buf0 = bytes@;
        let _ = self.owner.write(bytes, &mut p);
        let _ = self.request_time.write(bytes, &mut p);
        proof {
            lemma_written_concat(buf0, start, self.owner.packed(), self.request_time.packed());
        }
        let _ = self.quantity.write(bytes, &mut p);
        proof {
            lemma_written_concat(buf0, start, self.owner.packed() + self.request_time.packed(), self.quantity.packed());
        }
        proof {
            assert(self.owner.packed() + self.request_time.packed() + self.quantity.packed() =~= self.packed());
        }
        *pos = p;
        Ok(())
    }
}

impl Packed for GlobalStateXPR {
    open spec fn packed(&self) -> Seq<u8> {
        self.max_bp_per_vote.packed() + (self.min_bp_reward.packed() + (self.unstake_period.packed() + (self.process_by.packed() + (self.process_interval.packed() + (self.voters_claim_interval.packed() + (self.spare1.packed() + self.spare2.packed()))))))
    }

    proof fn lemma_unique(a: Self, b: Self, bytes: Seq<u8>, pos: int) {
        let ghost mut q = pos;
        lemma_prefix_concat(a.max_bp_per_vote.packed(), a.min_bp_reward.packed() + (a.unstake_period.packed() + (a.process_by.packed() + (a.process_interval.packed() + (a.voters_claim_interval.packed() + (a.spare1.packed() + a.spare2.packed()))))), bytes, q);
        lemma_prefix_concat(b.max_bp_per_vote.packed(), b.min_bp_reward.packed() + (b.unstake_period.packed() + (b.process_by.packed() + (b.process_interval.packed() + (b.voters_claim_interval.packed() + (b.spare1.packed() + b.spare2.packed()))))), bytes, q);
        <u64 as Packed>::lemma_unique(a.max_bp_per_vote, b.max_bp_per_vote, bytes, q);
        q = q + a.max_bp_per_vote.packed().len();
        lemma_prefix_concat(a.min_bp_reward.packed(), a.unstake_period.packed() + (a.process_by.packed() + (a.process_interval.packed() + (a.voters_claim_interval.packed() + (a.spare1.packed() + a.spare2.packed())))), bytes, q);
        lemma_prefix_concat(b.min_bp_reward.packed(), b.unstake_period.packed() + (b.process_by.packed() + (b.process_interval.packed() + (b.voters_claim_interval.packed() + (b.spare1.packed() + b.spare2.packed())))), bytes, q);
        <u64 as Packed>::lemma_unique(a.min_bp_reward, b.min_bp_reward, bytes, q);
        q = q + a.min_bp_reward.packed().len();
        lemma_prefix_concat(a.unstake_period.packed(), a.process_by.packed() + (a.process_interval.packed() + (a.voters_claim_interval.packed() + (a.spare1.packed() + a.spare2.packed()))), bytes, q);
        lemma_prefix_concat(b.unstake_period.packed(), b.process_by.packed() + (b.process_interval.packed() + (b.voters_claim_interval.packed() + (b.spare1.packed() + b.spare2.packed()))), bytes, q);
        <u64 as Packed>::lemma_unique(a.unstake_period, b.unstake_period, bytes, q);
        q = q + a.unstake_period.packed().len();
        lemma_prefix_concat(a.process_by.packed(), a.process_interval.packed() + (a.voters_claim_interval.packed() + (a.spare1.packed() + a.spare2.packed())), bytes, q);
        lemma_prefix_concat(b.process_by.packed(), b.process_interval.packed() + (b.voters_claim_interval.packed() + (b.spare1.packed() + b.spare2.packed())), bytes, q);
        <u64 as Packed>::lemma_unique(a.process_by, b.process_by, bytes, q);
        q = q + a.process_by.packed().len();
        lemma_prefix_concat(a.process_interval.packed(), a.voters_claim_interval.packed() + (a.spare1.packed() + a.spare2.packed()), bytes, q);
        lemma_prefix_concat(b.process_interval.packed(), b.voters_claim_interval.packed() + (b.spare1.packed() + b.spare2.packed()), bytes, q);
        <u64 as Packed>::lemma_unique(a.process_interval, b.process_interval, bytes, q);
        q = q + a.process_interval.packed().len();
        lemma_prefix_concat(a.voters_claim_interval.packed(), a.spare1.packed() + a.spare2.packed(), bytes, q);
        lemma_prefix_concat(b.voters_claim_interval.packed(), b.spare1.packed() + b.spare2.packed(), bytes, q);
        <u64 as Packed>::lemma_unique(a.voters_claim_interval, b.voters_claim_interval, bytes, q);
        q = q + a.voters_claim_interval.packed().len();
        lemma_prefix_concat(a.spare1.packed(), a.spare2.packed(), bytes, q);
        lemma_prefix_concat(b.spare1.packed(), b.spare2.packed(), bytes, q);
        <u64 as Packed>::lemma_unique(a.spare1, b.spare1, bytes, q);
        q = q + a.spare1.packed().len();
        <u64 as Packed>::lemma_unique(a.spare2, b.spare2, bytes, q);
    }

    open spec fn same_value(&self, other: &Self) -> bool {
        &&& self.max_bp_per_vote.same_value(&other.max_bp_per_vote)
        &&& self.min_bp_reward.same_value(&other.min_bp_reward)
        &&& self.unstake_period.same_value(&other.unstake_period)
        &&& self.process_by.same_value(&other.process_by)
        &&& self.process_interval.same_value(&other.process_interval)
        &&& self.voters_claim_interval.same_value(&other.voters_claim_interval)
        &&& self.spare1.same_value(&other.spare1)
        &&& self.spare2.same_value(&other.spare2)
    }

    proof fn lemma_injective(a: Self, b: Self) {
        let bytes = a.packed();
        let pos: int = 0;
        assert(bytes.subrange(0, bytes.len() as int) =~= bytes);
        let ghost mut q = pos;
        lemma_prefix_concat(a.max_bp_per_vote.packed(), a.min_bp_reward.packed() + (a.unstake_period.packed() + (a.process_by.packed() + (a.process_interval.packed() + (a.voters_claim_interval.packed() + (a.spare1.packed() + a.spare2.packed()))))), bytes, q);
        lemma_prefix_concat(b.max_bp_per_vote.packed(), b.min_bp_reward.packed() + (b.unstake_period.packed() + (b.process_by.packed() + (b.process_interval.packed() + (b.voters_claim_interval.packed() + (b.spare1.packed() + b.spare2.packed()))))), bytes, q);
        <u64 as Packed>::lemma_unique(a.max_bp_per_vote, b.max_bp_per_vote, bytes, q);
        <u64 as Packed>::lemma_injective(a.max_bp_per_vote, b.max_bp_per_vote);
        q = q + a.max_bp_per_vote.packed().len();
        lemma_prefix_concat(a.min_bp_reward.packed(), a.unstake_period.packed() + (a.process_by.packed() + (a.process_interval.packed() + (a.voters_claim_interval.packed() + (a.spare1.packed() + a.spare2.packed())))), bytes, q);
        lemma_prefix_concat(b.min_bp_reward.packed(), b.unstake_period.packed() + (b.process_by.packed() + (b.process_interval.packed() + (b.voters_claim_interval.packed() + (b.spare1.packed() + b.spare2.packed())))), bytes, q);
        <u64 as Packed>::lemma_unique(a.min_bp_reward, b.min_bp_reward, bytes, q);
        <u64 as Packed>::lemma_injective(a.min_bp_reward, b.min_bp_reward);
        q = q + a.min_bp_reward.packed().len();
        lemma_prefix_concat(a.unstake_period.packed(), a.process_by.packed() + (a.process_interval.packed() + (a.voters_claim_interval.packed() + (a.spare1.packed() + a.spare2.packed()))), bytes, q);
        lemma_prefix_concat(b.unstake_period.packed(), b.process_by.packed() + (b.process_interval.packed() + (b.voters_claim_interval.packed() + (b.spare1.packed() + b.spare2.packed()))), bytes, q);
        <u64 as Packed>::lemma_unique(a.unstake_period, b.unstake_period, bytes, q);
        <u64 as Packed>::lemma_injective(a.unstake_period, b.unstake_period);
        q = q + a.unstake_period.packed().len();
        lemma_prefix_concat(a.process_by.packed(), a.process_interval.packed() + (a.voters_claim_interval.packed() + (a.spare1.packed() + a.spare2.packed())), bytes, q);
        lemma_prefix_concat(b.process_by.packed(), b.process_interval.packed() + (b.voters_claim_interval.packed() + (b.spare1.packed() + b.spare2.packed())), bytes, q);
        <u64 as Packed>::lemma_unique(a.process_by, b.process_by, bytes, q);
        <u64 as Packed>::lemma_injective(a.process_by, b.process_by);
        q = q + a.process_by.packed().len();
        lemma_prefix_concat(a.process_interval.packed(), a.voters_claim_interval.packed() + (a.spare1.packed() + a.spare2.packed()), bytes, q);
        lemma_prefix_concat(b.process_interval.packed(), b.voters_claim_interval.packed() + (b.spare1.packed() + b.spare2.packed()), bytes, q);
        <u64 as Packed>::lemma_unique(a.process_interval, b.process_interval, bytes, q);
        <u64 as Packed>::lemma_injective(a.process_interval, b.process_interval);
        q = q + a.process_interval.packed().len();
        lemma_prefix_concat(a.voters_claim_interval.packed(), a.spare1.packed() + a.spare2.packed(), bytes, q);
        lemma_prefix_concat(b.voters_claim_interval.packed(), b.spare1.packed() + b.spare2.packed(), bytes, q);
        <u64 as Packed>::lemma_unique(a.voters_claim_interval, b.voters_claim_interval, bytes, q);
        <u64 as Packed>::lemma_injective(a.voters_claim_interval, b.voters_claim_interval);
        q = q + a.voters_claim_interval.packed().len();
        lemma_prefix_concat(a.spare1.packed(), a.spare2.packed(), bytes, q);
        lemma_prefix_concat(b.spare1.packed(), b.spare2.packed(), bytes, q);
        <u64 as Packed>::lemma_unique(a.spare1, b.spare1, bytes, q);
        <u64 as Packed>::lemma_injective(a.spare1, b.spare1);
        q = q + a.spare1.packed().len();
        <u64 as Packed>::lemma_unique(a.spare2, b.spare2, bytes, q);
        <u64 as Packed>::lemma_injective(a.spare2, b.spare2);
    }

    fn num_bytes(&self) -> (n: usize) {
        self.max_bp_per_vote.num_bytes() + self.min_bp_reward.num_bytes() + self.unstake_period.num_bytes() + self.process_by.num_bytes() + self.process_interval.num_bytes() + self.voters_claim_interval.num_bytes() + self.spare1.num_bytes() + self.spare2.num_bytes()
    }

    fn read(bytes: &[u8], pos: &mut usize) -> (r: Result<Self, ReadError>) {
        let mut p = *pos;
        let ghost q0: int = p as int;
        let x0 = match <u64 as Packed>::read(bytes, &mut p) {
            Ok(x) => x,
            Err(e) => {
                proof {
                    assert forall|v: GlobalStateXPR| !prefix_at(#[trigger] v.packed(), bytes@, *old(pos) as int) by {
                        if prefix_at(v.packed(), bytes@, *old(pos) as int) {
                            lemma_prefix_concat(v.max_bp_per_vote.packed(), v.min_bp_reward.packed() + (v.unstake_period.packed() + (v.process_by.packed() + (v.process_interval.packed() + (v.voters_claim_interval.packed() + (v.spare1.packed() + v.spare2.packed()))))), bytes@, q0);
                        }
                    }
                }
                return Err(e);
            },
        };
        let ghost q1: int = p as int;
        let x1 = match <u64 as Packed>::read(bytes, &mut p) {
            Ok(x) => x,
            Err(e) => {
                proof {
                    assert forall|v: GlobalStateXPR| !prefix_at(#[trigger] v.packed(), bytes@, *old(pos) as int) by {
                        if prefix_at(v.packed(), bytes@, *old(pos) as int) {
                            lemma_prefix_concat(v.max_bp_per_vote.packed(), v.min_bp_reward.packed() + (v.unstake_period.packed() + (v.process_by.packed() + (v.process_interval.packed() + (v.voters_claim_interval.packed() + (v.spare1.packed() + v.spare2.packed()))))), bytes@, q0);
                            <u64 as Packed>::lemma_unique(v.max_bp_per_vote, x0, bytes@, q0);
                            lemma_prefix_concat(v.min_bp_reward.packed(), v.unstake_period.packed() + (v.process_by.packed() + (v.process_interval.packed() + (v.voters_claim_interval.packed() + (v.spare1.packed() + v.spare2.packed())))), bytes@, q1);
                        }
                    }
                }
                return Err(e);
            },
        };
        let ghost q2: int = p as int;
        let x2 = match <u64 as Packed>::read(bytes, &mut p) {
            Ok(x) => x,
            Err(e) => {
                proof {
                    assert forall|v: GlobalStateXPR| !prefix_at(#[trigger] v.packed(), bytes@, *old(pos) as int) by {
                        if prefix_at(v.packed(), bytes@, *old(pos) as int) {
                            lemma_prefix_concat(v.max_bp_per_vote.packed(), v.min_bp_reward.packed() + (v.unstake_period.packed() + (v.process_by.packed() + (v.process_interval.packed() + (v.voters_claim_interval.packed() + (v.spare1.packed() + v.spare2.packed()))))), bytes@, q0);
                            <u64 as Packed>::lemma_unique(v.max_bp_per_vote, x0, bytes@, q0);
                            lemma_prefix_concat(v.min_bp_reward.packed(), v.unstake_period.packed() + (v.process_by.packed() + (v.process_interval.packed() + (v.voters_claim_interval.packed() + (v.spare1.packed() + v.spare2.packed())))), bytes@, q1);
                            <u64 as Packed>::lemma_unique(v.min_bp_reward, x1, bytes@, q1);
                            lemma_prefix_concat(v.unstake_period.packed(), v.process_by.packed() + (v.process_interval.packed() + (v.voters_claim_interval.packed() + (v.spare1.packed() + v.spare2.packed()))), bytes@, q2);
                        }
                    }
                }
                return Err(e);
            },
        };
        let ghost q3: int = p as int;
        let x3 = match <u64 as Packed>::read(bytes, &mut p) {
            Ok(x) => x,
            Err(e) => {
                proof {
                    assert forall|v: GlobalStateXPR| !prefix_at(#[trigger] v.packed(), bytes@, *old(pos) as int) by {
                        if prefix_at(v.packed(), bytes@, *old(pos) as int) {
                            lemma_prefix_concat(v.max_bp_per_vote.packed(), v.min_bp_reward.packed() + (v.unstake_period.packed() + (v.process_by.packed() + (v.process_interval.packed() + (v.voters_claim_interval.packed() + (v.spare1.packed() + v.spare2.packed()))))), bytes@, q0);
                            <u64 as Packed>::lemma_unique(v.max_bp_per_vote, x0, bytes@, q0);
                            lemma_prefix_concat(v.min_bp_reward.packed(), v.unstake_period.packed() + (v.process_by.packed() + (v.process_interval.packed() + (v.voters_claim_interval.packed() + (v.spare1.packed() + v.spare2.packed())))), bytes@, q1);
                            <u64 as Packed>::lemma_unique(v.min_bp_reward, x1, bytes@, q1);
                            lemma_prefix_concat(v.unstake_period.packed(), v.process_by.packed() + (v.process_interval.packed() + (v.voters_claim_interval.packed() + (v.spare1.packed() + v.spare2.packed()))), bytes@, q2);
                            <u64 as Packed>::lemma_unique(v.unstake_period, x2, bytes@, q2);
                            lemma_prefix_concat(v.process_by.packed(), v.process_interval.packed() + (v.voters_claim_interval.packed() + (v.spare1.packed() + v.spare2.packed())), bytes@, q3);
                        }
                    }
                }
                return Err(e);
            },
        };
        let ghost q4: int = p as int;
        let x4 = match <u64 as Packed>::read(bytes, &mut p) {
            Ok(x) => x,
            Err(e) => {
                proof {
                    assert forall|v: GlobalStateXPR| !prefix_at(#[trigger] v.packed(), bytes@, *old(pos) as int) by {
                        if prefix_at(v.packed(), bytes@, *old(pos) as int) {
                            lemma_prefix_concat(v.max_bp_per_vote.packed(), v.min_bp_reward.packed() + (v.unstake_period.packed() + (v.process_by.packed() + (v.process_interval.packed() + (v.voters_claim_interval.packed() + (v.spare1.packed() + v.spare2.packed()))))), bytes@, q0);
                            <u64 as Packed>::lemma_unique(v.max_bp_per_vote, x0, bytes@, q0);
                            lemma_prefix_concat(v.min_bp_reward.packed(), v.unstake_period.packed() + (v.process_by.packed() + (v.process_interval.packed() + (v.voters_claim_interval.packed() + (v.spare1.packed() + v.spare2.packed())))), bytes@, q1);
                            <u64 as Packed>::lemma_unique(v.min_bp_reward, x1, bytes@, q1);
                            lemma_prefix_concat(v.unstake_period.packed(), v.process_by.packed() + (v.process_interval.packed() + (v.voters_claim_interval.packed() + (v.spare1.packed() + v.spare2.packed()))), bytes@, q2);
                            <u64 as Packed>::lemma_unique(v.unstake_period, x2, bytes@, q2);
                            lemma_prefix_concat(v.process_by.packed(), v.process_interval.packed() + (v.voters_claim_interval.packed() + (v.spare1.packed() + v.spare2.packed())), bytes@, q3);
                            <u64 as Packed>::lemma_unique(v.process_by, x3, bytes@, q3);
                            lemma_prefix_concat(v.process_interval.packed(), v.voters_claim_interval.packed() + (v.spare1.packed() + v.spare2.packed()), bytes@, q4);
                        }
                    }
                }
                return Err(e);
            },
        };
        let ghost q5: int = p as int;
        let x5 = match <u64 as Packed>::read(bytes, &mut p) {
            Ok(x) => x,
            Err(e) => {
                proof {
                    assert forall|v: GlobalStateXPR| !prefix_at(#[trigger] v.packed(), bytes@, *old(pos) as int) by {
                        if prefix_at(v.packed(), bytes@, *old(pos) as int) {
                            lemma_prefix_concat(v.max_bp_per_vote.packed(), v.min_bp_reward.packed() + (v.unstake_period.packed() + (v.process_by.packed() + (v.process_interval.packed() + (v.voters_claim_interval.packed() + (v.spare1.packed() + v.spare2.packed()))))), bytes@, q0);
                            <u64 as Packed>::lemma_unique(v.max_bp_per_vote, x0, bytes@, q0);
                            lemma_prefix_concat(v.min_bp_reward.packed(), v.unstake_period.packed() + (v.process_by.packed() + (v.process_interval.packed() + (v.voters_claim_interval.packed() + (v.spare1.packed() + v.spare2.packed())))), bytes@, q1);
                            <u64 as Packed>::lemma_unique(v.min_bp_reward, x1, bytes@, q1);
                            lemma_prefix_concat(v.unstake_period.packed(), v.process_by.packed() + (v.process_interval.packed() + (v.voters_claim_interval.packed() + (v.spare1.packed() + v.spare2.packed()))), bytes@, q2);
                            <u64 as Packed>::lemma_unique(v.unstake_period, x2, bytes@, q2);
                            lemma_prefix_concat(v.process_by.packed(), v.process_interval.packed() + (v.voters_claim_interval.packed() + (v.spare1.packed() + v.spare2.packed())), bytes@, q3);
                            <u64 as Packed>::lemma_unique(v.process_by, x3, bytes@, q3);
                            lemma_prefix_concat(v.process_interval.packed(), v.voters_claim_interval.packed() + (v.spare1.packed() + v.spare2.packed()), bytes@, q4);
                            <u64 as Packed>::lemma_unique(v.process_interval, x4, bytes@, q4);
                            lemma_prefix_concat(v.voters_claim_interval.packed(), v.spare1.packed() + v.spare2.packed(), bytes@, q5);
                        }
                    }
                }
                return Err(e);
            },
        };
        let ghost q6: int = p as int;
        let x6 = match <u64 as Packed>::read(bytes, &mut p) {
            Ok(x) => x,
            Err(e) => {
                proof {
                    assert forall|v: GlobalStateXPR| !prefix_at(#[trigger] v.packed(), bytes@, *old(pos) as int) by {
                        if prefix_at(v.packed(), bytes@, *old(pos) as int) {
                            lemma_prefix_concat(v.max_bp_per_vote.packed(), v.min_bp_reward.packed() + (v.unstake_period.packed() + (v.process_by.packed() + (v.process_interval.packed() + (v.voters_claim_interval.packed() + (v.spare1.packed() + v.spare2.packed()))))), bytes@, q0);
                            <u64 as Packed>::lemma_unique(v.max_bp_per_vote, x0, bytes@, q0);
                            lemma_prefix_concat(v.min_bp_reward.packed(), v.unstake_period.packed() + (v.process_by.packed() + (v.process_interval.packed() + (v.voters_claim_interval.packed() + (v.spare1.packed() + v.spare2.packed())))), bytes@, q1);
                            <u64 as Packed>::lemma_unique(v.min_bp_reward, x1, bytes@, q1);
                            lemma_prefix_concat(v.unstake_period.packed(), v.process_by.packed() + (v.process_interval.packed() + (v.voters_claim_interval.packed() + (v.spare1.packed() + v.spare2.packed()))), bytes@, q2);
                            <u64 as Packed>::lemma_unique(v.unstake_period, x2, bytes@, q2);
                            lemma_prefix_concat(v.process_by.packed(), v.process_interval.packed() + (v.voters_claim_interval.packed() + (v.spare1.packed() + v.spare2.packed())), bytes@, q3);
                            <u64 as Packed>::lemma_unique(v.process_by, x3, bytes@, q3);
                            lemma_prefix_concat(v.process_interval.packed(), v.voters_claim_interval.packed() + (v.spare1.packed() + v.spare2.packed()), bytes@, q4);
                            <u64 as Packed>::lemma_unique(v.process_interval, x4, bytes@, q4);
                            lemma_prefix_concat(v.voters_claim_interval.packed(), v.spare1.packed() + v.spare2.packed(), bytes@, q5);
                            <u64 as Packed>::lemma_unique(v.voters_claim_interval, x5, bytes@, q5);
                            lemma_prefix_concat(v.spare1.packed(), v.spare2.packed(), bytes@, q6);
                        }
                    }
                }
                return Err(e);
            },
        };
        let ghost q7: int = p as int;
        let x7 = match <u64 as Packed>::read(bytes, &mut p) {
            Ok(x) => x,
            Err(e) => {
                proof {
                    assert forall|v: GlobalStateXPR| !prefix_at(#[trigger] v.packed(), bytes@, *old(pos) as int) by {
                        if prefix_at(v.packed(), bytes@, *old(pos) as int) {
                            lemma_prefix_concat(v.max_bp_per_vote.packed(), v.min_bp_reward.packed() + (v.unstake_period.packed() + (v.process_by.packed() + (v.process_interval.packed() + (v.voters_claim_interval.packed() + (v.spare1.packed() + v.spare2.packed()))))), bytes@, q0);
                            <u64 as Packed>::lemma_unique(v.max_bp_per_vote, x0, bytes@, q0);
                            lemma_prefix_concat(v.min_bp_reward.packed(), v.unstake_period.packed() + (v.process_by.packed() + (v.process_interval.packed() + (v.voters_claim_interval.packed() + (v.spare1.packed() + v.spare2.packed())))), bytes@, q1);
                            <u64 as Packed>::lemma_unique(v.min_bp_reward, x1, bytes@, q1);
                            lemma_prefix_concat(v.unstake_period.packed(), v.process_by.packed() + (v.process_interval.packed() + (v.voters_claim_interval.packed() + (v.spare1.packed() + v.spare2.packed()))), bytes@, q2);
                            <u64 as Packed>::lemma_unique(v.unstake_period, x2, bytes@, q2);
                            lemma_prefix_concat(v.process_by.packed(), v.process_interval.packed() + (v.voters_claim_interval.packed() + (v.spare1.packed() + v.spare2.packed())), bytes@, q3);
                            <u64 as Packed>::lemma_unique(v.process_by, x3, bytes@, q3);
                            lemma_prefix_concat(v.process_interval.packed(), v.voters_claim_interval.packed() + (v.spare1.packed() + v.spare2.packed()), bytes@, q4);
                            <u64 as Packed>::lemma_unique(v.process_interval, x4, bytes@, q4);
                            lemma_prefix_concat(v.voters_claim_interval.packed(), v.spare1.packed() + v.spare2.packed(), bytes@, q5);
                            <u64 as Packed>::lemma_unique(v.voters_claim_interval, x5, bytes@, q5);
                            lemma_prefix_concat(v.spare1.packed(), v.spare2.packed(), bytes@, q6);
                            <u64 as Packed>::lemma_unique(v.spare1, x6, bytes@, q6);
                        }
                    }
                }
                return Err(e);
            },
        };
        let v = GlobalStateXPR { max_bp_per_vote: x0, min_bp_reward: x1, unstake_period: x2, process_by: x3, process_interval: x4, voters_claim_interval: x5, spare1: x6, spare2: x7 };
        proof {
            lemma_prefix_concat(v.spare1.packed(), v.spare2.packed(), bytes@, q6);
            lemma_prefix_concat(v.voters_claim_interval.packed(), v.spare1.packed() + v.spare2.packed(), bytes@, q5);
            lemma_prefix_concat(v.process_interval.packed(), v.voters_claim_interval.packed() + (v.spare1.packed() + v.spare2.packed()), bytes@, q4);
            lemma_prefix_concat(v.process_by.packed(), v.process_interval.packed() + (v.voters_claim_interval.packed() + (v.spare1.packed() + v.spare2.packed())), bytes@, q3);
            lemma_prefix_concat(v.unstake_period.packed(), v.process_by.packed() + (v.process_interval.packed() + (v.voters_claim_interval.packed() + (v.spare1.packed() + v.spare2.packed()))), bytes@, q2);
            lemma_prefix_concat(v.min_bp_reward.packed(), v.unstake_period.packed() + (v.process_by.packed() + (v.process_interval.packed() + (v.voters_claim_interval.packed() + (v.spare1.packed() + v.spare2.packed())))), bytes@, q1);
            lemma_prefix_concat(v.max_bp_per_vote.packed(), v.min_bp_reward.packed() + (v.unstake_period.packed() + (v.process_by.packed() + (v.process_interval.packed() + (v.voters_claim_interval.packed() + (v.spare1.packed() + v.spare2.packed()))))), bytes@, q0);
        }
        *pos = p;
        Ok(v)
    }

    fn write(&self, bytes: &mut [u8], pos: &mut usize) -> (r: Result<(), WriteError>) {
        proof {
            assert(self.packed().len() <= 64);
        }
        let n = self.num_bytes();
        let len = bytes.len();
        if *pos > len || n > len - *pos {
            return Err(WriteError::NotEnoughSpace);
        }
        let mut p = *pos;
        let ghost start = *pos as int;
        let ghost buf0 = bytes@;
        let _ = self.max_bp_per_vote.write(bytes, &mut p);
        let _ = self.min_bp_reward.write(bytes, &mut p);
        proof {
            lemma_written_concat(buf0, start, self.max_bp_per_vote.packed(), self.min_bp_reward.packed());
        }
        let _ = self.unstake_period.write(bytes, &mut p);
        proof {
            lemma_written_concat(buf0, start, self.max_bp_per_vote.packed() + self.min_bp_reward.packed(), self.unstake_period.packed());
        }
        let _ = self.process_by.write(bytes, &mut p);
        proof {
            lemma_written_concat(buf0, start, self.max_bp_per_vote.packed() + self.min_bp_reward.packed() + self.unstake_period.packed(), self.process_by.packed());
        }
        let _ = self.process_interval.write(bytes, &mut p);
        proof {
            lemma_written_concat(buf0, start, self.max_bp_per_vote.packed() + self.min_bp_reward.packed() + self.unstake_period.packed() + self.process_by.packed(), self.process_interval.packed());
        }
        let _ = self.voters_claim_interval.write(bytes, &mut p);
        proof {
            lemma_written_concat(buf0, start, self.max_bp_per_vote.packed() + self.min_bp_reward.packed() + self.unstake_period.packed() + self.process_by.packed() + self.process_interval.packed(), self.voters_claim_interval.packed());
        }
        let _ = self.spare1.write(bytes, &mut p);
        proof {
            lemma_written_concat(buf0, start, self.max_bp_per_vote.packed() + self.min_bp_reward.packed() + self.unstake_period.packed() + self.process_by.packed() + self.process_interval.packed() + self.voters_claim_interval.packed(), self.spare1.packed());
        }
        let _ = self.spare2.write(bytes, &mut p);
        proof {
            lemma_written_concat(buf0, start, self.max_bp_per_vote.packed() + self.min_bp_reward.packed() + self.unstake_period.packed() + self.process_by.packed() + self.process_interval.packed() + self.voters_claim_interval.packed() + self.spare1.packed(), self.spare2.packed());
        }
        proof {
            assert(self.max_bp_per_vote.packed() + self.min_bp_reward.packed() + self.unstake_period.packed() + self.process_by.packed() + self.process_interval.packed() + self.voters_claim_interval.packed() + self.spare1.packed() + self.spare2.packed() =~= self.packed());
        }
        *pos = p;
        Ok(())
    }
}

impl Packed for GlobalStateD {
    open spec fn packed(&self) -> Seq<u8> {
        self.totalstaked.packed() + (self.totalrstaked.packed() + (self.totalrvoters.packed() + (self.notclaimed.packed() + (self.pool.packed() + (self.processtime.packed() + (self.processtimeupd.packed() + (self.isprocessing.packed() + (self.process_from.packed() + (self.process_quant.packed() + (self.processrstaked.packed() + (self.processed.packed() + (self.spare1.packed() + self.spare2.packed()))))))))))))
    }

    proof fn lemma_unique(a: Self, b: Self, bytes: Seq<u8>, pos: int) {
        let ghost mut q = pos;
        lemma_prefix_concat(a.totalstaked.packed(), a.totalrstaked.packed() + (a.totalrvoters.packed() + (a.notclaimed.packed() + (a.pool.packed() + (a.processtime.packed() + (a.processtimeupd.packed() + (a.isprocessing.packed() + (a.process_from.packed() + (a.process_quant.packed() + (a.processrstaked.packed() + (a.processed.packed() + (a.spare1.packed() + a.spare2.packed()))))))))))), bytes, q);
        lemma_prefix_concat(b.totalstaked.packed(), b.totalrstaked.packed() + (b.totalrvoters.packed() + (b.notclaimed.packed() + (b.pool.packed() + (b.processtime.packed() + (b.processtimeupd.packed() + (b.isprocessing.packed() + (b.process_from.packed() + (b.process_quant.packed() + (b.processrstaked.packed() + (b.processed.packed() + (b.spare1.packed() + b.spare2.packed()))))))))))), bytes, q);
        <i64 as Packed>::lemma_unique(a.totalstaked, b.totalstaked, bytes, q);
        q = q + a.totalstaked.packed().len();
        lemma_prefix_concat(a.totalrstaked.packed(), a.totalrvoters.packed() + (a.notclaimed.packed() + (a.pool.packed() + (a.processtime.packed() + (a.processtimeupd.packed() + (a.isprocessing.packed() + (a.process_from.packed() + (a.process_quant.packed() + (a.processrstaked.packed() + (a.processed.packed() + (a.spare1.packed() + a.spare2.packed())))))))))), bytes, q);
        lemma_prefix_concat(b.totalrstaked.packed(), b.totalrvoters.packed() + (b.notclaimed.packed() + (b.pool.packed() + (b.processtime.packed() + (b.processtimeupd.packed() + (b.isprocessing.packed() + (b.process_from.packed() + (b.process_quant.packed() + (b.processrstaked.packed() + (b.processed.packed() + (b.spare1.packed() + b.spare2.packed())))))))))), bytes, q);
        <i64 as Packed>::lemma_unique(a.totalrstaked, b.totalrstaked, bytes, q);
        q = q + a.totalrstaked.packed().len();
        lemma_prefix_concat(a.totalrvoters.packed(), a.notclaimed.packed() + (a.pool.packed() + (a.processtime.packed() + (a.processtimeupd.packed() + (a.isprocessing.packed() + (a.process_from.packed() + (a.process_quant.packed() + (a.processrstaked.packed() + (a.processed.packed() + (a.spare1.packed() + a.spare2.packed()))))))))), bytes, q);
        lemma_prefix_concat(b.totalrvoters.packed(), b.notclaimed.packed() + (b.pool.packed() + (b.processtime.packed() + (b.processtimeupd.packed() + (b.isprocessing.packed() + (b.process_from.packed() + (b.process_quant.packed() + (b.processrstaked.packed() + (b.processed.packed() + (b.spare1.packed() + b.spare2.packed()))))))))), bytes, q);
        <i64 as Packed>::lemma_unique(a.totalrvoters, b.totalrvoters, bytes, q);
        q = q + a.totalrvoters.packed().len();
        lemma_prefix_concat(a.notclaimed.packed(), a.pool.packed() + (a.processtime.packed() + (a.processtimeupd.packed() + (a.isprocessing.packed() + (a.process_from.packed() + (a.process_quant.packed() + (a.processrstaked.packed() + (a.processed.packed() + (a.spare1.packed() + a.spare2.packed())))))))), bytes, q);
        lemma_prefix_concat(b.notclaimed.packed(), b.pool.packed() + (b.processtime.packed() + (b.processtimeupd.packed() + (b.isprocessing.packed() + (b.process_from.packed() + (b.process_quant.packed() + (b.processrstaked.packed() + (b.processed.packed() + (b.spare1.packed() + b.spare2.packed())))))))), bytes, q);
        <i64 as Packed>::lemma_unique(a.notclaimed, b.notclaimed, bytes, q);
        q = q + a.notclaimed.packed().len();
        lemma_prefix_concat(a.pool.packed(), a.processtime.packed() + (a.processtimeupd.packed() + (a.isprocessing.packed() + (a.process_from.packed() + (a.process_quant.packed() + (a.processrstaked.packed() + (a.processed.packed() + (a.spare1.packed() + a.spare2.packed()))))))), bytes, q);
        lemma_prefix_concat(b.pool.packed(), b.processtime.packed() + (b.processtimeupd.packed() + (b.isprocessing.packed() + (b.process_from.packed() + (b.process_quant.packed() + (b.processrstaked.packed() + (b.processed.packed() + (b.spare1.packed() + b.spare2.packed()))))))), bytes, q);
        <i64 as Packed>::lemma_unique(a.pool, b.pool, bytes, q);
        q = q + a.pool.packed().len();
        lemma_prefix_concat(a.processtime.packed(), a.processtimeupd.packed() + (a.isprocessing.packed() + (a.process_from.packed() + (a.process_quant.packed() + (a.processrstaked.packed() + (a.processed.packed() + (a.spare1.packed() + a.spare2.packed())))))), bytes, q);
        lemma_prefix_concat(b.processtime.packed(), b.processtimeupd.packed() + (b.isprocessing.packed() + (b.process_from.packed() + (b.process_quant.packed() + (b.processrstaked.packed() + (b.processed.packed() + (b.spare1.packed() + b.spare2.packed())))))), bytes, q);
        <i64 as Packed>::lemma_unique(a.processtime, b.processtime, bytes, q);
        q = q + a.processtime.packed().len();
        lemma_prefix_concat(a.processtimeupd.packed(), a.isprocessing.packed() + (a.process_from.packed() + (a.process_quant.packed() + (a.processrstaked.packed() + (a.processed.packed() + (a.spare1.packed() + a.spare2.packed()))))), bytes, q);
        lemma_prefix_concat(b.processtimeupd.packed(), b.isprocessing.packed() + (b.process_from.packed() + (b.process_quant.packed() + (b.processrstaked.packed() + (b.processed.packed() + (b.spare1.packed() + b.spare2.packed()))))), bytes, q);
        <i64 as Packed>::lemma_unique(a.processtimeupd, b.processtimeupd, bytes, q);
        q = q + a.processtimeupd.packed().len();
        lemma_prefix_concat(a.isprocessing.packed(), a.process_from.packed() + (a.process_quant.packed() + (a.processrstaked.packed() + (a.processed.packed() + (a.spare1.packed() + a.spare2.packed())))), bytes, q);
        lemma_prefix_concat(b.isprocessing.packed(), b.process_from.packed() + (b.process_quant.packed() + (b.processrstaked.packed() + (b.processed.packed() + (b.spare1.packed() + b.spare2.packed())))), bytes, q);
        <bool as Packed>::lemma_unique(a.isprocessing, b.isprocessing, bytes, q);
        q = q + a.isprocessing.packed().len();
        lemma_prefix_concat(a.process_from.packed(), a.process_quant.packed() + (a.processrstaked.packed() + (a.processed.packed() + (a.spare1.packed() + a.spare2.packed()))), bytes, q);
        lemma_prefix_concat(b.process_from.packed(), b.process_quant.packed() + (b.processrstaked.packed() + (b.processed.packed() + (b.spare1.packed() + b.spare2.packed()))), bytes, q);
        <Name as Packed>::lemma_unique(a.process_from, b.process_from, bytes, q);
        q = q + a.process_from.packed().len();
        lemma_prefix_concat(a.process_quant.packed(), a.processrstaked.packed() + (a.processed.packed() + (a.spare1.packed() + a.spare2.packed())), bytes, q);
        lemma_prefix_concat(b.process_quant.packed(), b.processrstaked.packed() + (b.processed.packed() + (b.spare1.packed() + b.spare2.packed())), bytes, q);
        <u64 as Packed>::lemma_unique(a.process_quant, b.process_quant, bytes, q);
        q = q + a.process_quant.packed().len();
        lemma_prefix_concat(a.processrstaked.packed(), a.processed.packed() + (a.spare1.packed() + a.spare2.packed()), bytes, q);
        lemma_prefix_concat(b.processrstaked.packed(), b.processed.packed() + (b.spare1.packed() + b.spare2.packed()), bytes, q);
        <u64 as Packed>::lemma_unique(a.processrstaked, b.processrstaked, bytes, q);
        q = q + a.processrstaked.packed().len();
        lemma_prefix_concat(a.processed.packed(), a.spare1.packed() + a.spare2.packed(), bytes, q);
        lemma_prefix_concat(b.processed.packed(), b.spare1.packed() + b.spare2.packed(), bytes, q);
        <u64 as Packed>::lemma_unique(a.processed, b.processed, bytes, q);
        q = q + a.processed.packed().len();
        lemma_prefix_concat(a.spare1.packed(), a.spare2.packed(), bytes, q);
        lemma_prefix_concat(b.spare1.packed(), b.spare2.packed(), bytes, q);
        <i64 as Packed>::lemma_unique(a.spare1, b.spare1, bytes, q);
        q = q + a.spare1.packed().len();
        <i64 as Packed>::lemma_unique(a.spare2, b.spare2, bytes, q);
    }

    open spec fn same_value(&self, other: &Self) -> bool {
        &&& self.totalstaked.same_value(&other.totalstaked)
        &&& self.totalrstaked.same_value(&other.totalrstaked)
        &&& self.totalrvoters.same_value(&other.totalrvoters)
        &&& self.notclaimed.same_value(&other.notclaimed)
        &&& self.pool.same_value(&other.pool)
        &&& self.processtime.same_value(&other.processtime)
        &&& self.processtimeupd.same_value(&other.processtimeupd)
        &&& self.isprocessing.same_value(&other.isprocessing)
        &&& self.process_from.same_value(&other.process_from)
        &&& self.process_quant.same_value(&other.process_quant)
        &&& self.processrstaked.same_value(&other.processrstaked)
        &&& self.processed.same_value(&other.processed)
        &&& self.spare1.same_value(&other.spare1)
        &&& self.spare2.same_value(&other.spare2)
    }

    proof fn lemma_injective(a: Self, b: Self) {
        let bytes = a.packed();
        let pos: int = 0;
        assert(bytes.subrange(0, bytes.len() as int) =~= bytes);
        let ghost mut q = pos;
        lemma_prefix_concat(a.totalstaked.packed(), a.totalrstaked.packed() + (a.totalrvoters.packed() + (a.notclaimed.packed() + (a.pool.packed() + (a.processtime.packed() + (a.processtimeupd.packed() + (a.isprocessing.packed() + (a.process_from.packed() + (a.process_quant.packed() + (a.processrstaked.packed() + (a.processed.packed() + (a.spare1.packed() + a.spare2.packed()))))))))))), bytes, q);
        lemma_prefix_concat(b.totalstaked.packed(), b.totalrstaked.packed() + (b.totalrvoters.packed() + (b.notclaimed.packed() + (b.pool.packed() + (b.processtime.packed() + (b.processtimeupd.packed() + (b.isprocessing.packed() + (b.process_from.packed() + (b.process_quant.packed() + (b.processrstaked.packed() + (b.processed.packed() + (b.spare1.packed() + b.spare2.packed()))))))))))), bytes, q);
        <i64 as Packed>::lemma_unique(a.totalstaked, b.totalstaked, bytes, q);
        <i64 as Packed>::lemma_injective(a.totalstaked, b.totalstaked);
        q = q + a.totalstaked.packed().len();
        lemma_prefix_concat(a.totalrstaked.packed(), a.totalrvoters.packed() + (a.notclaimed.packed() + (a.pool.packed() + (a.processtime.packed() + (a.processtimeupd.packed() + (a.isprocessing.packed() + (a.process_from.packed() + (a.process_quant.packed() + (a.processrstaked.packed() + (a.processed.packed() + (a.spare1.packed() + a.spare2.packed())))))))))), bytes, q);
        lemma_prefix_concat(b.totalrstaked.packed(), b.totalrvoters.packed() + (b.notclaimed.packed() + (b.pool.packed() + (b.processtime.packed() + (b.processtimeupd.packed() + (b.isprocessing.packed() + (b.process_from.packed() + (b.process_quant.packed() + (b.processrstaked.packed() + (b.processed.packed() + (b.spare1.packed() + b.spare2.packed())))))))))), bytes, q);
        <i64 as Packed>::lemma_unique(a.totalrstaked, b.totalrstaked, bytes, q);
        <i64 as Packed>::lemma_injective(a.totalrstaked, b.totalrstaked);
        q = q + a.totalrstaked.packed().len();
        lemma_prefix_concat(a.totalrvoters.packed(), a.notclaimed.packed() + (a.pool.packed() + (a.processtime.packed() + (a.processtimeupd.packed() + (a.isprocessing.packed() + (a.process_from.packed() + (a.process_quant.packed() + (a.processrstaked.packed() + (a.processed.packed() + (a.spare1.packed() + a.spare2.packed()))))))))), bytes, q);
        lemma_prefix_concat(b.totalrvoters.packed(), b.notclaimed.packed() + (b.pool.packed() + (b.processtime.packed() + (b.processtimeupd.packed() + (b.isprocessing.packed() + (b.process_from.packed() + (b.process_quant.packed() + (b.processrstaked.packed() + (b.processed.packed() + (b.spare1.packed() + b.spare2.packed()))))))))), bytes, q);
        <i64 as Packed>::lemma_unique(a.totalrvoters, b.totalrvoters, bytes, q);
        <i64 as Packed>::lemma_injective(a.totalrvoters, b.totalrvoters);
        q = q + a.totalrvoters.packed().len();
        lemma_prefix_concat(a.notclaimed.packed(), a.pool.packed() + (a.processtime.packed() + (a.processtimeupd.packed() + (a.isprocessing.packed() + (a.process_from.packed() + (a.process_quant.packed() + (a.processrstaked.packed() + (a.processed.packed() + (a.spare1.packed() + a.spare2.packed())))))))), bytes, q);
        lemma_prefix_concat(b.notclaimed.packed(), b.pool.packed() + (b.processtime.packed() + (b.processtimeupd.packed() + (b.isprocessing.packed() + (b.process_from.packed() + (b.process_quant.packed() + (b.processrstaked.packed() + (b.processed.packed() + (b.spare1.packed() + b.spare2.packed())))))))), bytes, q);
        <i64 as Packed>::lemma_unique(a.notclaimed, b.notclaimed, bytes, q);
        <i64 as Packed>::lemma_injective(a.notclaimed, b.notclaimed);
        q = q + a.notclaimed.packed().len();
        lemma_prefix_concat(a.pool.packed(), a.processtime.packed() + (a.processtimeupd.packed() + (a.isprocessing.packed() + (a.process_from.packed() + (a.process_quant.packed() + (a.processrstaked.packed() + (a.processed.packed() + (a.spare1.packed() + a.spare2.packed()))))))), bytes, q);
        lemma_prefix_concat(b.pool.packed(), b.processtime.packed() + (b.processtimeupd.packed() + (b.isprocessing.packed() + (b.process_from.packed() + (b.process_quant.packed() + (b.processrstaked.packed() + (b.processed.packed() + (b.spare1.packed() + b.spare2.packed()))))))), bytes, q);
        <i64 as Packed>::lemma_unique(a.pool, b.pool, bytes, q);
        <i64 as Packed>::lemma_injective(a.pool, b.pool);
        q = q + a.pool.packed().len();
        lemma_prefix_concat(a.processtime.packed(), a.processtimeupd.packed() + (a.isprocessing.packed() + (a.process_from.packed() + (a.process_quant.packed() + (a.processrstaked.packed() + (a.processed.packed() + (a.spare1.packed() + a.spare2.packed())))))), bytes, q);
        lemma_prefix_concat(b.processtime.packed(), b.processtimeupd.packed() + (b.isprocessing.packed() + (b.process_from.packed() + (b.process_quant.packed() + (b.processrstaked.packed() + (b.processed.packed() + (b.spare1.packed() + b.spare2.packed())))))), bytes, q);
        <i64 as Packed>::lemma_unique(a.processtime, b.processtime, bytes, q);
        <i64 as Packed>::lemma_injective(a.processtime, b.processtime);
        q = q + a.processtime.packed().len();
        lemma_prefix_concat(a.processtimeupd.packed(), a.isprocessing.packed() + (a.process_from.packed() + (a.process_quant.packed() + (a.processrstaked.packed() + (a.processed.packed() + (a.spare1.packed() + a.spare2.packed()))))), bytes, q);
        lemma_prefix_concat(b.processtimeupd.packed(), b.isprocessing.packed() + (b.process_from.packed() + (b.process_quant.packed() + (b.processrstaked.packed() + (b.processed.packed() + (b.spare1.packed() + b.spare2.packed()))))), bytes, q);
        <i64 as Packed>::lemma_unique(a.processtimeupd, b.processtimeupd, bytes, q);
        <i64 as Packed>::lemma_injective(a.processtimeupd, b.processtimeupd);
        q = q + a.processtimeupd.packed().len();
        lemma_prefix_concat(a.isprocessing.packed(), a.process_from.packed() + (a.process_quant.packed() + (a.processrstaked.packed() + (a.processed.packed() + (a.spare1.packed() + a.spare2.packed())))), bytes, q);
        lemma_prefix_concat(b.isprocessing.packed(), b.process_from.packed() + (b.process_quant.packed() + (b.processrstaked.packed() + (b.processed.packed() + (b.spare1.packed() + b.spare2.packed())))), bytes, q);
        <bool as Packed>::lemma_unique(a.isprocessing, b.isprocessing, bytes, q);
        <bool as Packed>::lemma_injective(a.isprocessing, b.isprocessing);
        q = q + a.isprocessing.packed().len();
        lemma_prefix_concat(a.process_from.packed(), a.process_quant.packed() + (a.processrstaked.packed() + (a.processed.packed() + (a.spare1.packed() + a.spare2.packed()))), bytes, q);
        lemma_prefix_concat(b.process_from.packed(), b.process_quant.packed() + (b.processrstaked.packed() + (b.processed.packed() + (b.spare1.packed() + b.spare2.packed()))), bytes, q);
        <Name as Packed>::lemma_unique(a.process_from, b.process_from, bytes, q);
        <Name as Packed>::lemma_injective(a.process_from, b.process_from);
        q = q + a.process_from.packed().len();
        lemma_prefix_concat(a.process_quant.packed(), a.processrstaked.packed() + (a.processed.packed() + (a.spare1.packed() + a.spare2.packed())), bytes, q);
        lemma_prefix_concat(b.process_quant.packed(), b.processrstaked.packed() + (b.processed.packed() + (b.spare1.packed() + b.spare2.packed())), bytes, q);
        <u64 as Packed>::lemma_unique(a.process_quant, b.process_quant, bytes, q);
        <u64 as Packed>::lemma_injective(a.process_quant, b.process_quant);
        q = q + a.process_quant.packed().len();
        lemma_prefix_concat(a.processrstaked.packed(), a.processed.packed() + (a.spare1.packed() + a.spare2.packed()), bytes, q);
        lemma_prefix_concat(b.processrstaked.packed(), b.processed.packed() + (b.spare1.packed() + b.spare2.packed()), bytes, q);
        <u64 as Packed>::lemma_unique(a.processrstaked, b.processrstaked, bytes, q);
        <u64 as Packed>::lemma_injective(a.processrstaked, b.processrstaked);
        q = q + a.processrstaked.packed().len();
        lemma_prefix_concat(a.processed.packed(), a.spare1.packed() + a.spare2.packed(), bytes, q);
        lemma_prefix_concat(b.processed.packed(), b.spare1.packed() + b.spare2.packed(), bytes, q);
        <u64 as Packed>::lemma_unique(a.processed, b.processed, bytes, q);
        <u64 as Packed>::lemma_injective(a.processed, b.processed);
        q = q + a.processed.packed().len();
        lemma_prefix_concat(a.spare1.packed(), a.spare2.packed(), bytes, q);
        lemma_prefix_concat(b.spare1.packed(), b.spare2.packed(), bytes, q);
        <i64 as Packed>::lemma_unique(a.spare1, b.spare1, bytes, q);
        <i64 as Packed>::lemma_injective(a.spare1, b.spare1);
        q = q + a.spare1.packed().len();
        <i64 as Packed>::lemma_unique(a.spare2, b.spare2, bytes, q);
        <i64 as Packed>::lemma_injective(a.spare2, b.spare2);
    }

    fn num_bytes(&self) -> (n: usize) {
        self.totalstaked.num_bytes() + self.totalrstaked.num_bytes() + self.totalrvoters.num_bytes() + self.notclaimed.num_bytes() + self.pool.num_bytes() + self.processtime.num_bytes() + self.processtimeupd.num_bytes() + self.isprocessing.num_bytes() + self.process_from.num_bytes() + self.process_quant.num_bytes() + self.processrstaked.num_bytes() + self.processed.num_bytes() + self.spare1.num_bytes() + self.spare2.num_bytes()
    }

    #[verifier::spinoff_prover]
    #[verifier::rlimit(80)]
    fn read(bytes: &[u8], pos: &mut usize) -> (r: Result<Self, ReadError>) {
        let mut p = *pos;
        let ghost q0: int = p as int;
        let x0 = match <i64 as Packed>::read(bytes, &mut p) {
            Ok(x) => x,
            Err(e) => {
                proof {
                    assert forall|v: GlobalStateD| !prefix_at(#[trigger] v.packed(), bytes@, *old(pos) as int) by {
                        if prefix_at(v.packed(), bytes@, *old(pos) as int) {
                            lemma_prefix_concat(v.totalstaked.packed(), v.totalrstaked.packed() + (v.totalrvoters.packed() + (v.notclaimed.packed() + (v.pool.packed() + (v.processtime.packed() + (v.processtimeupd.packed() + (v.isprocessing.packed() + (v.process_from.packed() + (v.process_quant.packed() + (v.processrstaked.packed() + (v.processed.packed() + (v.spare1.packed() + v.spare2.packed()))))))))))), bytes@, q0);
                        }
                    }
                }
                return Err(e);
            },
        };
        let ghost q1: int = p as int;
        let x1 = match <i64 as Packed>::read(bytes, &mut p) {
            Ok(x) => x,
            Err(e) => {
                proof {
                    assert forall|v: GlobalStateD| !prefix_at(#[trigger] v.packed(), bytes@, *old(pos) as int) by {
                        if prefix_at(v.packed(), bytes@, *old(pos) as int) {
                            lemma_prefix_concat(v.totalstaked.packed(), v.totalrstaked.packed() + (v.totalrvoters.packed() + (v.notclaimed.packed() + (v.pool.packed() + (v.processtime.packed() + (v.processtimeupd.packed() + (v.isprocessing.packed() + (v.process_from.packed() + (v.process_quant.packed() + (v.processrstaked.packed() + (v.processed.packed() + (v.spare1.packed() + v.spare2.packed()))))))))))), bytes@, q0);
                            <i64 as Packed>::lemma_unique(v.totalstaked, x0, bytes@, q0);
                            lemma_prefix_concat(v.totalrstaked.packed(), v.totalrvoters.packed() + (v.notclaimed.packed() + (v.pool.packed() + (v.processtime.packed() + (v.processtimeupd.packed() + (v.isprocessing.packed() + (v.process_from.packed() + (v.process_quant.packed() + (v.processrstaked.packed() + (v.processed.packed() + (v.spare1.packed() + v.spare2.packed())))))))))), bytes@, q1);
                        }
                    }
                }
                return Err(e);
            },
        };
        let ghost q2: int = p as int;
        let x2 = match <i64 as Packed>::read(bytes, &mut p) {
            Ok(x) => x,
            Err(e) => {
                proof {
                    assert forall|v: GlobalStateD| !prefix_at(#[trigger] v.packed(), bytes@, *old(pos) as int) by {
                        if prefix_at(v.packed(), bytes@, *old(pos) as int) {
                            lemma_prefix_concat(v.totalstaked.packed(), v.totalrstaked.packed() + (v.totalrvoters.packed() + (v.notclaimed.packed() + (v.pool.packed() + (v.processtime.packed() + (v.processtimeupd.packed() + (v.isprocessing.packed() + (v.process_from.packed() + (v.process_quant.packed() + (v.processrstaked.packed() + (v.processed.packed() + (v.spare1.packed() + v.spare2.packed()))))))))))), bytes@, q0);
                            <i64 as Packed>::lemma_unique(v.totalstaked, x0, bytes@, q0);
                            lemma_prefix_concat(v.totalrstaked.packed(), v.totalrvoters.packed() + (v.notclaimed.packed() + (v.pool.packed() + (v.processtime.packed() + (v.processtimeupd.packed() + (v.isprocessing.packed() + (v.process_from.packed() + (v.process_quant.packed() + (v.processrstaked.packed() + (v.processed.packed() + (v.spare1.packed() + v.spare2.packed())))))))))), bytes@, q1);
                            <i64 as Packed>::lemma_unique(v.totalrstaked, x1, bytes@, q1);
                            lemma_prefix_concat(v.totalrvoters.packed(), v.notclaimed.packed() + (v.pool.packed() + (v.processtime.packed() + (v.processtimeupd.packed() + (v.isprocessing.packed() + (v.process_from.packed() + (v.process_quant.packed() + (v.processrstaked.packed() + (v.processed.packed() + (v.spare1.packed() + v.spare2.packed()))))))))), bytes@, q2);
                        }
                    }
                }
                return Err(e);
            },
        };
        let ghost q3: int = p as int;
        let x3 = match <i64 as Packed>::read(bytes, &mut p) {
            Ok(x) => x,
            Err(e) => {
                proof {
                    assert forall|v: GlobalStateD| !prefix_at(#[trigger] v.packed(), bytes@, *old(pos) as int) by {
                        if prefix_at(v.packed(), bytes@, *old(pos) as int) {
                            lemma_prefix_concat(v.totalstaked.packed(), v.totalrstaked.packed() + (v.totalrvoters.packed() + (v.notclaimed.packed() + (v.pool.packed() + (v.processtime.packed() + (v.processtimeupd.packed() + (v.isprocessing.packed() + (v.process_from.packed() + (v.process_quant.packed() + (v.processrstaked.packed() + (v.processed.packed() + (v.spare1.packed() + v.spare2.packed()))))))))))), bytes@, q0);
                            <i64 as Packed>::lemma_unique(v.totalstaked, x0, bytes@, q0);
                            lemma_prefix_concat(v.totalrstaked.packed(), v.totalrvoters.packed() + (v.notclaimed.packed() + (v.pool.packed() + (v.processtime.packed() + (v.processtimeupd.packed() + (v.isprocessing.packed() + (v.process_from.packed() + (v.process_quant.packed() + (v.processrstaked.packed() + (v.processed.packed() + (v.spare1.packed() + v.spare2.packed())))))))))), bytes@, q1);
                            <i64 as Packed>::lemma_unique(v.totalrstaked, x1, bytes@, q1);
                            lemma_prefix_concat(v.totalrvoters.packed(), v.notclaimed.packed() + (v.pool.packed() + (v.processtime.packed() + (v.processtimeupd.packed() + (v.isprocessing.packed() + (v.process_from.packed() + (v.process_quant.packed() + (v.processrstaked.packed() + (v.processed.packed() + (v.spare1.packed() + v.spare2.packed()))))))))), bytes@, q2);
                            <i64 as Packed>::lemma_unique(v.totalrvoters, x2, bytes@, q2);
                            lemma_prefix_concat(v.notclaimed.packed(), v.pool.packed() + (v.processtime.packed() + (v.processtimeupd.packed() + (v.isprocessing.packed() + (v.process_from.packed() + (v.process_quant.packed() + (v.processrstaked.packed() + (v.processed.packed() + (v.spare1.packed() + v.spare2.packed())))))))), bytes@, q3);
                        }
                    }
                }
                return Err(e);
            },
        };
        let ghost q4: int = p as int;
        let x4 = match <i64 as Packed>::read(bytes, &mut p) {
            Ok(x) => x,
            Err(e) => {
                proof {
                    assert forall|v: GlobalStateD| !prefix_at(#[trigger] v.packed(), bytes@, *old(pos) as int) by {
                        if prefix_at(v.packed(), bytes@, *old(pos) as int) {
                            lemma_prefix_concat(v.totalstaked.packed(), v.totalrstaked.packed() + (v.totalrvoters.packed() + (v.notclaimed.packed() + (v.pool.packed() + (v.processtime.packed() + (v.processtimeupd.packed() + (v.isprocessing.packed() + (v.process_from.packed() + (v.process_quant.packed() + (v.processrstaked.packed() + (v.processed.packed() + (v.spare1.packed() + v.spare2.packed()))))))))))), bytes@, q0);
                            <i64 as Packed>::lemma_unique(v.totalstaked, x0, bytes@, q0);
                            lemma_prefix_concat(v.totalrstaked.packed(), v.totalrvoters.packed() + (v.notclaimed.packed() + (v.pool.packed() + (v.processtime.packed() + (v.processtimeupd.packed() + (v.isprocessing.packed() + (v.process_from.packed() + (v.process_quant.packed() + (v.processrstaked.packed() + (v.processed.packed() + (v.spare1.packed() + v.spare2.packed())))))))))), bytes@, q1);
                            <i64 as Packed>::lemma_unique(v.totalrstaked, x1, bytes@, q1);
                            lemma_prefix_concat(v.totalrvoters.packed(), v.notclaimed.packed() + (v.pool.packed() + (v.processtime.packed() + (v.processtimeupd.packed() + (v.isprocessing.packed() + (v.process_from.packed() + (v.process_quant.packed() + (v.processrstaked.packed() + (v.processed.packed() + (v.spare1.packed() + v.spare2.packed()))))))))), bytes@, q2);
                            <i64 as Packed>::lemma_unique(v.totalrvoters, x2, bytes@, q2);
                            lemma_prefix_concat(v.notclaimed.packed(), v.pool.packed() + (v.processtime.packed() + (v.processtimeupd.packed() + (v.isprocessing.packed() + (v.process_from.packed() + (v.process_quant.packed() + (v.processrstaked.packed() + (v.processed.packed() + (v.spare1.packed() + v.spare2.packed())))))))), bytes@, q3);
                            <i64 as Packed>::lemma_unique(v.notclaimed, x3, bytes@, q3);
                            lemma_prefix_concat(v.pool.packed(), v.processtime.packed() + (v.processtimeupd.packed() + (v.isprocessing.packed() + (v.process_from.packed() + (v.process_quant.packed() + (v.processrstaked.packed() + (v.processed.packed() + (v.spare1.packed() + v.spare2.packed()))))))), bytes@, q4);
                        }
                    }
                }
                return Err(e);
            },
        };
        let ghost q5: int = p as int;
        let x5 = match <i64 as Packed>::read(bytes, &mut p) {
            Ok(x) => x,
            Err(e) => {
                proof {
                    assert forall|v: GlobalStateD| !prefix_at(#[trigger] v.packed(), bytes@, *old(pos) as int) by {
                        if prefix_at(v.packed(), bytes@, *old(pos) as int) {
                            lemma_prefix_concat(v.totalstaked.packed(), v.totalrstaked.packed() + (v.totalrvoters.packed() + (v.notclaimed.packed() + (v.pool.packed() + (v.processtime.packed() + (v.processtimeupd.packed() + (v.isprocessing.packed() + (v.process_from.packed() + (v.process_quant.packed() + (v.processrstaked.packed() + (v.processed.packed() + (v.spare1.packed() + v.spare2.packed()))))))))))), bytes@, q0);
                            <i64 as Packed>::lemma_unique(v.totalstaked, x0, bytes@, q0);
                            lemma_prefix_concat(v.totalrstaked.packed(), v.totalrvoters.packed() + (v.notclaimed.packed() + (v.pool.packed() + (v.processtime.packed() + (v.processtimeupd.packed() + (v.isprocessing.packed() + (v.process_from.packed() + (v.process_quant.packed() + (v.processrstaked.packed() + (v.processed.packed() + (v.spare1.packed() + v.spare2.packed())))))))))), bytes@, q1);
                            <i64 as Packed>::lemma_unique(v.totalrstaked, x1, bytes@, q1);
                            lemma_prefix_concat(v.totalrvoters.packed(), v.notclaimed.packed() + (v.pool.packed() + (v.processtime.packed() + (v.processtimeupd.packed() + (v.isprocessing.packed() + (v.process_from.packed() + (v.process_quant.packed() + (v.processrstaked.packed() + (v.processed.packed() + (v.spare1.packed() + v.spare2.packed()))))))))), bytes@, q2);
                            <i64 as Packed>::lemma_unique(v.totalrvoters, x2, bytes@, q2);
                            lemma_prefix_concat(v.notclaimed.packed(), v.pool.packed() + (v.processtime.packed() + (v.processtimeupd.packed() + (v.isprocessing.packed() + (v.process_from.packed() + (v.process_quant.packed() + (v.processrstaked.packed() + (v.processed.packed() + (v.spare1.packed() + v.spare2.packed())))))))), bytes@, q3);
                            <i64 as Packed>::lemma_unique(v.notclaimed, x3, bytes@, q3);
                            lemma_prefix_concat(v.pool.packed(), v.processtime.packed() + (v.processtimeupd.packed() + (v.isprocessing.packed() + (v.process_from.packed() + (v.process_quant.packed() + (v.processrstaked.packed() + (v.processed.packed() + (v.spare1.packed() + v.spare2.packed()))))))), bytes@, q4);
                            <i64 as Packed>::lemma_unique(v.pool, x4, bytes@, q4);
                            lemma_prefix_concat(v.processtime.packed(), v.processtimeupd.packed() + (v.isprocessing.packed() + (v.process_from.packed() + (v.process_quant.packed() + (v.processrstaked.packed() + (v.processed.packed() + (v.spare1.packed() + v.spare2.packed())))))), bytes@, q5);
                        }
                    }
                }
                return Err(e);
            },
        };
        let ghost q6: int = p as int;
        let x6 = match <i64 as Packed>::read(bytes, &mut p) {
            Ok(x) => x,
            Err(e) => {
                proof {
                    assert forall|v: GlobalStateD| !prefix_at(#[trigger] v.packed(), bytes@, *old(pos) as int) by {
                        if prefix_at(v.packed(), bytes@, *old(pos) as int) {
                            lemma_prefix_concat(v.totalstaked.packed(), v.totalrstaked.packed() + (v.totalrvoters.packed() + (v.notclaimed.packed() + (v.pool.packed() + (v.processtime.packed() + (v.processtimeupd.packed() + (v.isprocessing.packed() + (v.process_from.packed() + (v.process_quant.packed() + (v.processrstaked.packed() + (v.processed.packed() + (v.spare1.packed() + v.spare2.packed()))))))))))), bytes@, q0);
                            <i64 as Packed>::lemma_unique(v.totalstaked, x0, bytes@, q0);
                            lemma_prefix_concat(v.totalrstaked.packed(), v.totalrvoters.packed() + (v.notclaimed.packed() + (v.pool.packed() + (v.processtime.packed() + (v.processtimeupd.packed() + (v.isprocessing.packed() + (v.process_from.packed() + (v.process_quant.packed() + (v.processrstaked.packed() + (v.processed.packed() + (v.spare1.packed() + v.spare2.packed())))))))))), bytes@, q1);
                            <i64 as Packed>::lemma_unique(v.totalrstaked, x1, bytes@, q1);
                            lemma_prefix_concat(v.totalrvoters.packed(), v.notclaimed.packed() + (v.pool.packed() + (v.processtime.packed() + (v.processtimeupd.packed() + (v.isprocessing.packed() + (v.process_from.packed() + (v.process_quant.packed() + (v.processrstaked.packed() + (v.processed.packed() + (v.spare1.packed() + v.spare2.packed()))))))))), bytes@, q2);
                            <i64 as Packed>::lemma_unique(v.totalrvoters, x2, bytes@, q2);
                            lemma_prefix_concat(v.notclaimed.packed(), v.pool.packed() + (v.processtime.packed() + (v.processtimeupd.packed() + (v.isprocessing.packed() + (v.process_from.packed() + (v.process_quant.packed() + (v.processrstaked.packed() + (v.processed.packed() + (v.spare1.packed() + v.spare2.packed())))))))), bytes@, q3);
                            <i64 as Packed>::lemma_unique(v.notclaimed, x3, bytes@, q3);
                            lemma_prefix_concat(v.pool.packed(), v.processtime.packed() + (v.processtimeupd.packed() + (v.isprocessing.packed() + (v.process_from.packed() + (v.process_quant.packed() + (v.processrstaked.packed() + (v.processed.packed() + (v.spare1.packed() + v.spare2.packed()))))))), bytes@, q4);
                            <i64 as Packed>::lemma_unique(v.pool, x4, bytes@, q4);
                            lemma_prefix_concat(v.processtime.packed(), v.processtimeupd.packed() + (v.isprocessing.packed() + (v.process_from.packed() + (v.process_quant.packed() + (v.processrstaked.packed() + (v.processed.packed() + (v.spare1.packed() + v.spare2.packed())))))), bytes@, q5);
                            <i64 as Packed>::lemma_unique(v.processtime, x5, bytes@, q5);
                            lemma_prefix_concat(v.processtimeupd.packed(), v.isprocessing.packed() + (v.process_from.packed() + (v.process_quant.packed() + (v.processrstaked.packed() + (v.processed.packed() + (v.spare1.packed() + v.spare2.packed()))))), bytes@, q6);
                        }
                    }
                }
                return Err(e);
            },
        };
        let ghost q7: int = p as int;
        let x7 = match <bool as Packed>::read(bytes, &mut p) {
            Ok(x) => x,
            Err(e) => {
                proof {
                    assert forall|v: GlobalStateD| !prefix_at(#[trigger] v.packed(), bytes@, *old(pos) as int) by {
                        if prefix_at(v.packed(), bytes@, *old(pos) as int) {
                            lemma_prefix_concat(v.totalstaked.packed(), v.totalrstaked.packed() + (v.totalrvoters.packed() + (v.notclaimed.packed() + (v.pool.packed() + (v.processtime.packed() + (v.processtimeupd.packed() + (v.isprocessing.packed() + (v.process_from.packed() + (v.process_quant.packed() + (v.processrstaked.packed() + (v.processed.packed() + (v.spare1.packed() + v.spare2.packed()))))))))))), bytes@, q0);
                            <i64 as Packed>::lemma_unique(v.totalstaked, x0, bytes@, q0);
                            lemma_prefix_concat(v.totalrstaked.packed(), v.totalrvoters.packed() + (v.notclaimed.packed() + (v.pool.packed() + (v.processtime.packed() + (v.processtimeupd.packed() + (v.isprocessing.packed() + (v.process_from.packed() + (v.process_quant.packed() + (v.processrstaked.packed() + (v.processed.packed() + (v.spare1.packed() + v.spare2.packed())))))))))), bytes@, q1);
                            <i64 as Packed>::lemma_unique(v.totalrstaked, x1, bytes@, q1);
                            lemma_prefix_concat(v.totalrvoters.packed(), v.notclaimed.packed() + (v.pool.packed() + (v.processtime.packed() + (v.processtimeupd.packed() + (v.isprocessing.packed() + (v.process_from.packed() + (v.process_quant.packed() + (v.processrstaked.packed() + (v.processed.packed() + (v.spare1.packed() + v.spare2.packed()))))))))), bytes@, q2);
                            <i64 as Packed>::lemma_unique(v.totalrvoters, x2, bytes@, q2);
                            lemma_prefix_concat(v.notclaimed.packed(), v.pool.packed() + (v.processtime.packed() + (v.processtimeupd.packed() + (v.isprocessing.packed() + (v.process_from.packed() + (v.process_quant.packed() + (v.processrstaked.packed() + (v.processed.packed() + (v.spare1.packed() + v.spare2.packed())))))))), bytes@, q3);
                            <i64 as Packed>::lemma_unique(v.notclaimed, x3, bytes@, q3);
                            lemma_prefix_concat(v.pool.packed(), v.processtime.packed() + (v.processtimeupd.packed() + (v.isprocessing.packed() + (v.process_from.packed() + (v.process_quant.packed() + (v.processrstaked.packed() + (v.processed.packed() + (v.spare1.packed() + v.spare2.packed()))))))), bytes@, q4);
                            <i64 as Packed>::lemma_unique(v.pool, x4, bytes@, q4);
                            lemma_prefix_concat(v.processtime.packed(), v.processtimeupd.packed() + (v.isprocessing.packed() + (v.process_from.packed() + (v.process_quant.packed() + (v.processrstaked.packed() + (v.processed.packed() + (v.spare1.packed() + v.spare2.packed())))))), bytes@, q5);
                            <i64 as Packed>::lemma_unique(v.processtime, x5, bytes@, q5);
                            lemma_prefix_concat(v.processtimeupd.packed(), v.isprocessing.packed() + (v.process_from.packed() + (v.process_quant.packed() + (v.processrstaked.packed() + (v.processed.packed() + (v.spare1.packed() + v.spare2.packed()))))), bytes@, q6);
                            <i64 as Packed>::lemma_unique(v.processtimeupd, x6, bytes@, q6);
                            lemma_prefix_concat(v.isprocessing.packed(), v.process_from.packed() + (v.process_quant.packed() + (v.processrstaked.packed() + (v.processed.packed() + (v.spare1.packed() + v.spare2.packed())))), bytes@, q7);
                        }
                    }
                }
                return Err(e);
            },
        };
        let ghost q8: int = p as int;
        let x8 = match <Name as Packed>::read(bytes, &mut p) {
            Ok(x) => x,
            Err(e) => {
                proof {
                    assert forall|v: GlobalStateD| !prefix_at(#[trigger] v.packed(), bytes@, *old(pos) as int) by {
                        if prefix_at(v.packed(), bytes@, *old(pos) as int) {
                            lemma_prefix_concat(v.totalstaked.packed(), v.totalrstaked.packed() + (v.totalrvoters.packed() + (v.notclaimed.packed() + (v.pool.packed() + (v.processtime.packed() + (v.processtimeupd.packed() + (v.isprocessing.packed() + (v.process_from.packed() + (v.process_quant.packed() + (v.processrstaked.packed() + (v.processed.packed() + (v.spare1.packed() + v.spare2.packed()))))))))))), bytes@, q0);
                            <i64 as Packed>::lemma_unique(v.totalstaked, x0, bytes@, q0);
                            lemma_prefix_concat(v.totalrstaked.packed(), v.totalrvoters.packed() + (v.notclaimed.packed() + (v.pool.packed() + (v.processtime.packed() + (v.processtimeupd.packed() + (v.isprocessing.packed() + (v.process_from.packed() + (v.process_quant.packed() + (v.processrstaked.packed() + (v.processed.packed() + (v.spare1.packed() + v.spare2.packed())))))))))), bytes@, q1);
                            <i64 as Packed>::lemma_unique(v.totalrstaked, x1, bytes@, q1);
                            lemma_prefix_concat(v.totalrvoters.packed(), v.notclaimed.packed() + (v.pool.packed() + (v.processtime.packed() + (v.processtimeupd.packed() + (v.isprocessing.packed() + (v.process_from.packed() + (v.process_quant.packed() + (v.processrstaked.packed() + (v.processed.packed() + (v.spare1.packed() + v.spare2.packed()))))))))), bytes@, q2);
                            <i64 as Packed>::lemma_unique(v.totalrvoters, x2, bytes@, q2);
                            lemma_prefix_concat(v.notclaimed.packed(), v.pool.packed() + (v.processtime.packed() + (v.processtimeupd.packed() + (v.isprocessing.packed() + (v.process_from.packed() + (v.process_quant.packed() + (v.processrstaked.packed() + (v.processed.packed() + (v.spare1.packed() + v.spare2.packed())))))))), bytes@, q3);
                            <i64 as Packed>::lemma_unique(v.notclaimed, x3, bytes@, q3);
                            lemma_prefix_concat(v.pool.packed(), v.processtime.packed() + (v.processtimeupd.packed() + (v.isprocessing.packed() + (v.process_from.packed() + (v.process_quant.packed() + (v.processrstaked.packed() + (v.processed.packed() + (v.spare1.packed() + v.spare2.packed()))))))), bytes@, q4);
                            <i64 as Packed>::lemma_unique(v.pool, x4, bytes@, q4);
                            lemma_prefix_concat(v.processtime.packed(), v.processtimeupd.packed() + (v.isprocessing.packed() + (v.process_from.packed() + (v.process_quant.packed() + (v.processrstaked.packed() + (v.processed.packed() + (v.spare1.packed() + v.spare2.packed())))))), bytes@, q5);
                            <i64 as Packed>::lemma_unique(v.processtime, x5, bytes@, q5);
                            lemma_prefix_concat(v.processtimeupd.packed(), v.isprocessing.packed() + (v.process_from.packed() + (v.process_quant.packed() + (v.processrstaked.packed() + (v.processed.packed() + (v.spare1.packed() + v.spare2.packed()))))), bytes@, q6);
                            <i64 as Packed>::lemma_unique(v.processtimeupd, x6, bytes@, q6);
                            lemma_prefix_concat(v.isprocessing.packed(), v.process_from.packed() + (v.process_quant.packed() + (v.processrstaked.packed() + (v.processed.packed() + (v.spare1.packed() + v.spare2.packed())))), bytes@, q7);
                            <bool as Packed>::lemma_unique(v.isprocessing, x7, bytes@, q7);
                            lemma_prefix_concat(v.process_from.packed(), v.process_quant.packed() + (v.processrstaked.packed() + (v.processed.packed() + (v.spare1.packed() + v.spare2.packed()))), bytes@, q8);
                        }
                    }
                }
                return Err(e);
            },
        };
        let ghost q9: int = p as int;
        let x9 = match <u64 as Packed>::read(bytes, &mut p) {
            Ok(x) => x,
            Err(e) => {
                proof {
                    assert forall|v: GlobalStateD| !prefix_at(#[trigger] v.packed(), bytes@, *old(pos) as int) by {
                        if prefix_at(v.packed(), bytes@, *old(pos) as int) {
                            lemma_prefix_concat(v.totalstaked.packed(), v.totalrstaked.packed() + (v.totalrvoters.packed() + (v.notclaimed.packed() + (v.pool.packed() + (v.processtime.packed() + (v.processtimeupd.packed() + (v.isprocessing.packed() + (v.process_from.packed() + (v.process_quant.packed() + (v.processrstaked.packed() + (v.processed.packed() + (v.spare1.packed() + v.spare2.packed()))))))))))), bytes@, q0);
                            <i64 as Packed>::lemma_unique(v.totalstaked, x0, bytes@, q0);
                            lemma_prefix_concat(v.totalrstaked.packed(), v.totalrvoters.packed() + (v.notclaimed.packed() + (v.pool.packed() + (v.processtime.packed() + (v.processtimeupd.packed() + (v.isprocessing.packed() + (v.process_from.packed() + (v.process_quant.packed() + (v.processrstaked.packed() + (v.processed.packed() + (v.spare1.packed() + v.spare2.packed())))))))))), bytes@, q1);
                            <i64 as Packed>::lemma_unique(v.totalrstaked, x1, bytes@, q1);
                            lemma_prefix_concat(v.totalrvoters.packed(), v.notclaimed.packed() + (v.pool.packed() + (v.processtime.packed() + (v.processtimeupd.packed() + (v.isprocessing.packed() + (v.process_from.packed() + (v.process_quant.packed() + (v.processrstaked.packed() + (v.processed.packed() + (v.spare1.packed() + v.spare2.packed()))))))))), bytes@, q2);
                            <i64 as Packed>::lemma_unique(v.totalrvoters, x2, bytes@, q2);
                            lemma_prefix_concat(v.notclaimed.packed(), v.pool.packed() + (v.processtime.packed() + (v.processtimeupd.packed() + (v.isprocessing.packed() + (v.process_from.packed() + (v.process_quant.packed() + (v.processrstaked.packed() + (v.processed.packed() + (v.spare1.packed() + v.spare2.packed())))))))), bytes@, q3);
                            <i64 as Packed>::lemma_unique(v.notclaimed, x3, bytes@, q3);
                            lemma_prefix_concat(v.pool.packed(), v.processtime.packed() + (v.processtimeupd.packed() + (v.isprocessing.packed() + (v.process_from.packed() + (v.process_quant.packed() + (v.processrstaked.packed() + (v.processed.packed() + (v.spare1.packed() + v.spare2.packed()))))))), bytes@, q4);
                            <i64 as Packed>::lemma_unique(v.pool, x4, bytes@, q4);
                            lemma_prefix_concat(v.processtime.packed(), v.processtimeupd.packed() + (v.isprocessing.packed() + (v.process_from.packed() + (v.process_quant.packed() + (v.processrstaked.packed() + (v.processed.packed() + (v.spare1.packed() + v.spare2.packed())))))), bytes@, q5);
                            <i64 as Packed>::lemma_unique(v.processtime, x5, bytes@, q5);
                            lemma_prefix_concat(v.processtimeupd.packed(), v.isprocessing.packed() + (v.process_from.packed() + (v.process_quant.packed() + (v.processrstaked.packed() + (v.processed.packed() + (v.spare1.packed() + v.spare2.packed()))))), bytes@, q6);
                            <i64 as Packed>::lemma_unique(v.processtimeupd, x6, bytes@, q6);
                            lemma_prefix_concat(v.isprocessing.packed(), v.process_from.packed() + (v.process_quant.packed() + (v.processrstaked.packed() + (v.processed.packed() + (v.spare1.packed() + v.spare2.packed())))), bytes@, q7);
                            <bool as Packed>::lemma_unique(v.isprocessing, x7, bytes@, q7);
                            lemma_prefix_concat(v.process_from.packed(), v.process_quant.packed() + (v.processrstaked.packed() + (v.processed.packed() + (v.spare1.packed() + v.spare2.packed()))), bytes@, q8);
                            <Name as Packed>::lemma_unique(v.process_from, x8, bytes@, q8);
                            lemma_prefix_concat(v.process_quant.packed(), v.processrstaked.packed() + (v.processed.packed() + (v.spare1.packed() + v.spare2.packed())), bytes@, q9);
                        }
                    }
                }
                return Err(e);
            },
        };
        let ghost q10: int = p as int;
        let x10 = match <u64 as Packed>::read(bytes, &mut p) {
            Ok(x) => x,
            Err(e) => {
                proof {
                    assert forall|v: GlobalStateD| !prefix_at(#[trigger] v.packed(), bytes@, *old(pos) as int) by {
                        if prefix_at(v.packed(), bytes@, *old(pos) as int) {
                            lemma_prefix_concat(v.totalstaked.packed(), v.totalrstaked.packed() + (v.totalrvoters.packed() + (v.notclaimed.packed() + (v.pool.packed() + (v.processtime.packed() + (v.processtimeupd.packed() + (v.isprocessing.packed() + (v.process_from.packed() + (v.process_quant.packed() + (v.processrstaked.packed() + (v.processed.packed() + (v.spare1.packed() + v.spare2.packed()))))))))))), bytes@, q0);
                            <i64 as Packed>::lemma_unique(v.totalstaked, x0, bytes@, q0);
                            lemma_prefix_concat(v.totalrstaked.packed(), v.totalrvoters.packed() + (v.notclaimed.packed() + (v.pool.packed() + (v.processtime.packed() + (v.processtimeupd.packed() + (v.isprocessing.packed() + (v.process_from.packed() + (v.process_quant.packed() + (v.processrstaked.packed() + (v.processed.packed() + (v.spare1.packed() + v.spare2.packed())))))))))), bytes@, q1);
                            <i64 as Packed>::lemma_unique(v.totalrstaked, x1, bytes@, q1);
                            lemma_prefix_concat(v.totalrvoters.packed(), v.notclaimed.packed() + (v.pool.packed() + (v.processtime.packed() + (v.processtimeupd.packed() + (v.isprocessing.packed() + (v.process_from.packed() + (v.process_quant.packed() + (v.processrstaked.packed() + (v.processed.packed() + (v.spare1.packed() + v.spare2.packed()))))))))), bytes@, q2);
                            <i64 as Packed>::lemma_unique(v.totalrvoters, x2, bytes@, q2);
                            lemma_prefix_concat(v.notclaimed.packed(), v.pool.packed() + (v.processtime.packed() + (v.processtimeupd.packed() + (v.isprocessing.packed() + (v.process_from.packed() + (v.process_quant.packed() + (v.processrstaked.packed() + (v.processed.packed() + (v.spare1.packed() + v.spare2.packed())))))))), bytes@, q3);
                            <i64 as Packed>::lemma_unique(v.notclaimed, x3, bytes@, q3);
                            lemma_prefix_concat(v.pool.packed(), v.processtime.packed() + (v.processtimeupd.packed() + (v.isprocessing.packed() + (v.process_from.packed() + (v.process_quant.packed() + (v.processrstaked.packed() + (v.processed.packed() + (v.spare1.packed() + v.spare2.packed()))))))), bytes@, q4);
                            <i64 as Packed>::lemma_unique(v.pool, x4, bytes@, q4);
                            lemma_prefix_concat(v.processtime.packed(), v.processtimeupd.packed() + (v.isprocessing.packed() + (v.process_from.packed() + (v.process_quant.packed() + (v.processrstaked.packed() + (v.processed.packed() + (v.spare1.packed() + v.spare2.packed())))))), bytes@, q5);
                            <i64 as Packed>::lemma_unique(v.processtime, x5, bytes@, q5);
                            lemma_prefix_concat(v.processtimeupd.packed(), v.isprocessing.packed() + (v.process_from.packed() + (v.process_quant.packed() + (v.processrstaked.packed() + (v.processed.packed() + (v.spare1.packed() + v.spare2.packed()))))), bytes@, q6);
                            <i64 as Packed>::lemma_unique(v.processtimeupd, x6, bytes@, q6);
                            lemma_prefix_concat(v.isprocessing.packed(), v.process_from.packed() + (v.process_quant.packed() + (v.processrstaked.packed() + (v.processed.packed() + (v.spare1.packed() + v.spare2.packed())))), bytes@, q7);
                            <bool as Packed>::lemma_unique(v.isprocessing, x7, bytes@, q7);
                            lemma_prefix_concat(v.process_from.packed(), v.process_quant.packed() + (v.processrstaked.packed() + (v.processed.packed() + (v.spare1.packed() + v.spare2.packed()))), bytes@, q8);
                            <Name as Packed>::lemma_unique(v.process_from, x8, bytes@, q8);
                            lemma_prefix_concat(v.process_quant.packed(), v.processrstaked.packed() + (v.processed.packed() + (v.spare1.packed() + v.spare2.packed())), bytes@, q9);
                            <u64 as Packed>::lemma_unique(v.process_quant, x9, bytes@, q9);
                            lemma_prefix_concat(v.processrstaked.packed(), v.processed.packed() + (v.spare1.packed() + v.spare2.packed()), bytes@, q10);
                        }
                    }
                }
                return Err(e);
            },
        };
        let ghost q11: int = p as int;
        let x11 = match <u64 as Packed>::read(bytes, &mut p) {
            Ok(x) => x,
            Err(e) => {
                proof {
                    assert forall|v: GlobalStateD| !prefix_at(#[trigger] v.packed(), bytes@, *old(pos) as int) by {
                        if prefix_at(v.packed(), bytes@, *old(pos) as int) {
                            lemma_prefix_concat(v.totalstaked.packed(), v.totalrstaked.packed() + (v.totalrvoters.packed() + (v.notclaimed.packed() + (v.pool.packed() + (v.processtime.packed() + (v.processtimeupd.packed() + (v.isprocessing.packed() + (v.process_from.packed() + (v.process_quant.packed() + (v.processrstaked.packed() + (v.processed.packed() + (v.spare1.packed() + v.spare2.packed()))))))))))), bytes@, q0);
                            <i64 as Packed>::lemma_unique(v.totalstaked, x0, bytes@, q0);
                            lemma_prefix_concat(v.totalrstaked.packed(), v.totalrvoters.packed() + (v.notclaimed.packed() + (v.pool.packed() + (v.processtime.packed() + (v.processtimeupd.packed() + (v.isprocessing.packed() + (v.process_from.packed() + (v.process_quant.packed() + (v.processrstaked.packed() + (v.processed.packed() + (v.spare1.packed() + v.spare2.packed())))))))))), bytes@, q1);
                            <i64 as Packed>::lemma_unique(v.totalrstaked, x1, bytes@, q1);
                            lemma_prefix_concat(v.totalrvoters.packed(), v.notclaimed.packed() + (v.pool.packed() + (v.processtime.packed() + (v.processtimeupd.packed() + (v.isprocessing.packed() + (v.process_from.packed() + (v.process_quant.packed() + (v.processrstaked.packed() + (v.processed.packed() + (v.spare1.packed() + v.spare2.packed()))))))))), bytes@, q2);
                            <i64 as Packed>::lemma_unique(v.totalrvoters, x2, bytes@, q2);
                            lemma_prefix_concat(v.notclaimed.packed(), v.pool.packed() + (v.processtime.packed() + (v.processtimeupd.packed() + (v.isprocessing.packed() + (v.process_from.packed() + (v.process_quant.packed() + (v.processrstaked.packed() + (v.processed.packed() + (v.spare1.packed() + v.spare2.packed())))))))), bytes@, q3);
                            <i64 as Packed>::lemma_unique(v.notclaimed, x3, bytes@, q3);
                            lemma_prefix_concat(v.pool.packed(), v.processtime.packed() + (v.processtimeupd.packed() + (v.isprocessing.packed() + (v.process_from.packed() + (v.process_quant.packed() + (v.processrstaked.packed() + (v.processed.packed() + (v.spare1.packed() + v.spare2.packed()))))))), bytes@, q4);
                            <i64 as Packed>::lemma_unique(v.pool, x4, bytes@, q4);
                            lemma_prefix_concat(v.processtime.packed(), v.processtimeupd.packed() + (v.isprocessing.packed() + (v.process_from.packed() + (v.process_quant.packed() + (v.processrstaked.packed() + (v.processed.packed() + (v.spare1.packed() + v.spare2.packed())))))), bytes@, q5);
                            <i64 as Packed>::lemma_unique(v.processtime, x5, bytes@, q5);
                            lemma_prefix_concat(v.processtimeupd.packed(), v.isprocessing.packed() + (v.process_from.packed() + (v.process_quant.packed() + (v.processrstaked.packed() + (v.processed.packed() + (v.spare1.packed() + v.spare2.packed()))))), bytes@, q6);
                            <i64 as Packed>::lemma_unique(v.processtimeupd, x6, bytes@, q6);
                            lemma_prefix_concat(v.isprocessing.packed(), v.process_from.packed() + (v.process_quant.packed() + (v.processrstaked.packed() + (v.processed.packed() + (v.spare1.packed() + v.spare2.packed())))), bytes@, q7);
                            <bool as Packed>::lemma_unique(v.isprocessing, x7, bytes@, q7);
                            lemma_prefix_concat(v.process_from.packed(), v.process_quant.packed() + (v.processrstaked.packed() + (v.processed.packed() + (v.spare1.packed() + v.spare2.packed()))), bytes@, q8);
                            <Name as Packed>::lemma_unique(v.process_from, x8, bytes@, q8);
                            lemma_prefix_concat(v.process_quant.packed(), v.processrstaked.packed() + (v.processed.packed() + (v.spare1.packed() + v.spare2.packed())), bytes@, q9);
                            <u64 as Packed>::lemma_unique(v.process_quant, x9, bytes@, q9);
                            lemma_prefix_concat(v.processrstaked.packed(), v.processed.packed() + (v.spare1.packed() + v.spare2.packed()), bytes@, q10);
                            <u64 as Packed>::lemma_unique(v.processrstaked, x10, bytes@, q10);
                            lemma_prefix_concat(v.processed.packed(), v.spare1.packed() + v.spare2.packed(), bytes@, q11);
                        }
                    }
                }
                return Err(e);
            },
        };
        let ghost q12: int = p as int;
        let x12 = match <i64 as Packed>::read(bytes, &mut p) {
            Ok(x) => x,
            Err(e) => {
                proof {
                    assert forall|v: GlobalStateD| !prefix_at(#[trigger] v.packed(), bytes@, *old(pos) as int) by {
                        if prefix_at(v.packed(), bytes@, *old(pos) as int) {
                            lemma_prefix_concat(v.totalstaked.packed(), v.totalrstaked.packed() + (v.totalrvoters.packed() + (v.notclaimed.packed() + (v.pool.packed() + (v.processtime.packed() + (v.processtimeupd.packed() + (v.isprocessing.packed() + (v.process_from.packed() + (v.process_quant.packed() + (v.processrstaked.packed() + (v.processed.packed() + (v.spare1.packed() + v.spare2.packed()))))))))))), bytes@, q0);
                            <i64 as Packed>::lemma_unique(v.totalstaked, x0, bytes@, q0);
                            lemma_prefix_concat(v.totalrstaked.packed(), v.totalrvoters.packed() + (v.notclaimed.packed() + (v.pool.packed() + (v.processtime.packed() + (v.processtimeupd.packed() + (v.isprocessing.packed() + (v.process_from.packed() + (v.process_quant.packed() + (v.processrstaked.packed() + (v.processed.packed() + (v.spare1.packed() + v.spare2.packed())))))))))), bytes@, q1);
                            <i64 as Packed>::lemma_unique(v.totalrstaked, x1, bytes@, q1);
                            lemma_prefix_concat(v.totalrvoters.packed(), v.notclaimed.packed() + (v.pool.packed() + (v.processtime.packed() + (v.processtimeupd.packed() + (v.isprocessing.packed() + (v.process_from.packed() + (v.process_quant.packed() + (v.processrstaked.packed() + (v.processed.packed() + (v.spare1.packed() + v.spare2.packed()))))))))), bytes@, q2);
                            <i64 as Packed>::lemma_unique(v.totalrvoters, x2, bytes@, q2);
                            lemma_prefix_concat(v.notclaimed.packed(), v.pool.packed() + (v.processtime.packed() + (v.processtimeupd.packed() + (v.isprocessing.packed() + (v.process_from.packed() + (v.process_quant.packed() + (v.processrstaked.packed() + (v.processed.packed() + (v.spare1.packed() + v.spare2.packed())))))))), bytes@, q3);
                            <i64 as Packed>::lemma_unique(v.notclaimed, x3, bytes@, q3);
                            lemma_prefix_concat(v.pool.packed(), v.processtime.packed() + (v.processtimeupd.packed() + (v.isprocessing.packed() + (v.process_from.packed() + (v.process_quant.packed() + (v.processrstaked.packed() + (v.processed.packed() + (v.spare1.packed() + v.spare2.packed()))))))), bytes@, q4);
                            <i64 as Packed>::lemma_unique(v.pool, x4, bytes@, q4);
                            lemma_prefix_concat(v.processtime.packed(), v.processtimeupd.packed() + (v.isprocessing.packed() + (v.process_from.packed() + (v.process_quant.packed() + (v.processrstaked.packed() + (v.processed.packed() + (v.spare1.packed() + v.spare2.packed())))))), bytes@, q5);
                            <i64 as Packed>::lemma_unique(v.processtime, x5, bytes@, q5);
                            lemma_prefix_concat(v.processtimeupd.packed(), v.isprocessing.packed() + (v.process_from.packed() + (v.process_quant.packed() + (v.processrstaked.packed() + (v.processed.packed() + (v.spare1.packed() + v.spare2.packed()))))), bytes@, q6);
                            <i64 as Packed>::lemma_unique(v.processtimeupd, x6, bytes@, q6);
                            lemma_prefix_concat(v.isprocessing.packed(), v.process_from.packed() + (v.process_quant.packed() + (v.processrstaked.packed() + (v.processed.packed() + (v.spare1.packed() + v.spare2.packed())))), bytes@, q7);
                            <bool as Packed>::lemma_unique(v.isprocessing, x7, bytes@, q7);
                            lemma_prefix_concat(v.process_from.packed(), v.process_quant.packed() + (v.processrstaked.packed() + (v.processed.packed() + (v.spare1.packed() + v.spare2.packed()))), bytes@, q8);
                            <Name as Packed>::lemma_unique(v.process_from, x8, bytes@, q8);
                            lemma_prefix_concat(v.process_quant.packed(), v.processrstaked.packed() + (v.processed.packed() + (v.spare1.packed() + v.spare2.packed())), bytes@, q9);
                            <u64 as Packed>::lemma_unique(v.process_quant, x9, bytes@, q9);
                            lemma_prefix_concat(v.processrstaked.packed(), v.processed.packed() + (v.spare1.packed() + v.spare2.packed()), bytes@, q10);
                            <u64 as Packed>::lemma_unique(v.processrstaked, x10, bytes@, q10);
                            lemma_prefix_concat(v.processed.packed(), v.spare1.packed() + v.spare2.packed(), bytes@, q11);
                            <u64 as Packed>::lemma_unique(v.processed, x11, bytes@, q11);
                            lemma_prefix_concat(v.spare1.packed(), v.spare2.packed(), bytes@, q12);
                        }
                    }
                }
                return Err(e);
            },
        };
        let ghost q13: int = p as int;
        let x13 = match <i64 as Packed>::read(bytes, &mut p) {
            Ok(x) => x,
            Err(e) => {
                proof {
                    assert forall|v: GlobalStateD| !prefix_at(#[trigger] v.packed(), bytes@, *old(pos) as int) by {
                        if prefix_at(v.packed(), bytes@, *old(pos) as int) {
                            lemma_prefix_concat(v.totalstaked.packed(), v.totalrstaked.packed() + (v.totalrvoters.packed() + (v.notclaimed.packed() + (v.pool.packed() + (v.processtime.packed() + (v.processtimeupd.packed() + (v.isprocessing.packed() + (v.process_from.packed() + (v.process_quant.packed() + (v.processrstaked.packed() + (v.processed.packed() + (v.spare1.packed() + v.spare2.packed()))))))))))), bytes@, q0);
                            <i64 as Packed>::lemma_unique(v.totalstaked, x0, bytes@, q0);
                            lemma_prefix_concat(v.totalrstaked.packed(), v.totalrvoters.packed() + (v.notclaimed.packed() + (v.pool.packed() + (v.processtime.packed() + (v.processtimeupd.packed() + (v.isprocessing.packed() + (v.process_from.packed() + (v.process_quant.packed() + (v.processrstaked.packed() + (v.processed.packed() + (v.spare1.packed() + v.spare2.packed())))))))))), bytes@, q1);
                            <i64 as Packed>::lemma_unique(v.totalrstaked, x1, bytes@, q1);
                            lemma_prefix_concat(v.totalrvoters.packed(), v.notclaimed.packed() + (v.pool.packed() + (v.processtime.packed() + (v.processtimeupd.packed() + (v.isprocessing.packed() + (v.process_from.packed() + (v.process_quant.packed() + (v.processrstaked.packed() + (v.processed.packed() + (v.spare1.packed() + v.spare2.packed()))))))))), bytes@, q2);
                            <i64 as Packed>::lemma_unique(v.totalrvoters, x2, bytes@, q2);
                            lemma_prefix_concat(v.notclaimed.packed(), v.pool.packed() + (v.processtime.packed() + (v.processtimeupd.packed() + (v.isprocessing.packed() + (v.process_from.packed() + (v.process_quant.packed() + (v.processrstaked.packed() + (v.processed.packed() + (v.spare1.packed() + v.spare2.packed())))))))), bytes@, q3);
                            <i64 as Packed>::lemma_unique(v.notclaimed, x3, bytes@, q3);
                            lemma_prefix_concat(v.pool.packed(), v.processtime.packed() + (v.processtimeupd.packed() + (v.isprocessing.packed() + (v.process_from.packed() + (v.process_quant.packed() + (v.processrstaked.packed() + (v.processed.packed() + (v.spare1.packed() + v.spare2.packed()))))))), bytes@, q4);
                            <i64 as Packed>::lemma_unique(v.pool, x4, bytes@, q4);
                            lemma_prefix_concat(v.processtime.packed(), v.processtimeupd.packed() + (v.isprocessing.packed() + (v.process_from.packed() + (v.process_quant.packed() + (v.processrstaked.packed() + (v.processed.packed() + (v.spare1.packed() + v.spare2.packed())))))), bytes@, q5);
                            <i64 as Packed>::lemma_unique(v.processtime, x5, bytes@, q5);
                            lemma_prefix_concat(v.processtimeupd.packed(), v.isprocessing.packed() + (v.process_from.packed() + (v.process_quant.packed() + (v.processrstaked.packed() + (v.processed.packed() + (v.spare1.packed() + v.spare2.packed()))))), bytes@, q6);
                            <i64 as Packed>::lemma_unique(v.processtimeupd, x6, bytes@, q6);
                            lemma_prefix_concat(v.isprocessing.packed(), v.process_from.packed() + (v.process_quant.packed() + (v.processrstaked.packed() + (v.processed.packed() + (v.spare1.packed() + v.spare2.packed())))), bytes@, q7);
                            <bool as Packed>::lemma_unique(v.isprocessing, x7, bytes@, q7);
                            lemma_prefix_concat(v.process_from.packed(), v.process_quant.packed() + (v.processrstaked.packed() + (v.processed.packed() + (v.spare1.packed() + v.spare2.packed()))), bytes@, q8);
                            <Name as Packed>::lemma_unique(v.process_from, x8, bytes@, q8);
                            lemma_prefix_concat(v.process_quant.packed(), v.processrstaked.packed() + (v.processed.packed() + (v.spare1.packed() + v.spare2.packed())), bytes@, q9);
                            <u64 as Packed>::lemma_unique(v.process_quant, x9, bytes@, q9);
                            lemma_prefix_concat(v.processrstaked.packed(), v.processed.packed() + (v.spare1.packed() + v.spare2.packed()), bytes@, q10);
                            <u64 as Packed>::lemma_unique(v.processrstaked, x10, bytes@, q10);
                            lemma_prefix_concat(v.processed.packed(), v.spare1.packed() + v.spare2.packed(), bytes@, q11);
                            <u64 as Packed>::lemma_unique(v.processed, x11, bytes@, q11);
                            lemma_prefix_concat(v.spare1.packed(), v.spare2.packed(), bytes@, q12);
                            <i64 as Packed>::lemma_unique(v.spare1, x12, bytes@, q12);
                        }
                    }
                }
                return Err(e);
            },
        };
        let v = GlobalStateD { totalstaked: x0, totalrstaked: x1, totalrvoters: x2, notclaimed: x3, pool: x4, processtime: x5, processtimeupd: x6, isprocessing: x7, process_from: x8, process_quant: x9, processrstaked: x10, processed: x11, spare1: x12, spare2: x13 };
        proof {
            lemma_prefix_concat(v.spare1.packed(), v.spare2.packed(), bytes@, q12);
            lemma_prefix_concat(v.processed.packed(), v.spare1.packed() + v.spare2.packed(), bytes@, q11);
            lemma_prefix_concat(v.processrstaked.packed(), v.processed.packed() + (v.spare1.packed() + v.spare2.packed()), bytes@, q10);
            lemma_prefix_concat(v.process_quant.packed(), v.processrstaked.packed() + (v.processed.packed() + (v.spare1.packed() + v.spare2.packed())), bytes@, q9);
            lemma_prefix_concat(v.process_from.packed(), v.process_quant.packed() + (v.processrstaked.packed() + (v.processed.packed() + (v.spare1.packed() + v.spare2.packed()))), bytes@, q8);
            lemma_prefix_concat(v.isprocessing.packed(), v.process_from.packed() + (v.process_quant.packed() + (v.processrstaked.packed() + (v.processed.packed() + (v.spare1.packed() + v.spare2.packed())))), bytes@, q7);
            lemma_prefix_concat(v.processtimeupd.packed(), v.isprocessing.packed() + (v.process_from.packed() + (v.process_quant.packed() + (v.processrstaked.packed() + (v.processed.packed() + (v.spare1.packed() + v.spare2.packed()))))), bytes@, q6);
            lemma_prefix_concat(v.processtime.packed(), v.processtimeupd.packed() + (v.isprocessing.packed() + (v.process_from.packed() + (v.process_quant.packed() + (v.processrstaked.packed() + (v.processed.packed() + (v.spare1.packed() + v.spare2.packed())))))), bytes@, q5);
            lemma_prefix_concat(v.pool.packed(), v.processtime.packed() + (v.processtimeupd.packed() + (v.isprocessing.packed() + (v.process_from.packed() + (v.process_quant.packed() + (v.processrstaked.packed() + (v.processed.packed() + (v.spare1.packed() + v.spare2.packed()))))))), bytes@, q4);
            lemma_prefix_concat(v.notclaimed.packed(), v.pool.packed() + (v.processtime.packed() + (v.processtimeupd.packed() + (v.isprocessing.packed() + (v.process_from.packed() + (v.process_quant.packed() + (v.processrstaked.packed() + (v.processed.packed() + (v.spare1.packed() + v.spare2.packed())))))))), bytes@, q3);
            lemma_prefix_concat(v.totalrvoters.packed(), v.notclaimed.packed() + (v.pool.packed() + (v.processtime.packed() + (v.processtimeupd.packed() + (v.isprocessing.packed() + (v.process_from.packed() + (v.process_quant.packed() + (v.processrstaked.packed() + (v.processed.packed() + (v.spare1.packed() + v.spare2.packed()))))))))), bytes@, q2);
            lemma_prefix_concat(v.totalrstaked.packed(), v.totalrvoters.packed() + (v.notclaimed.packed() + (v.pool.packed() + (v.processtime.packed() + (v.processtimeupd.packed() + (v.isprocessing.packed() + (v.process_from.packed() + (v.process_quant.packed() + (v.processrstaked.packed() + (v.processed.packed() + (v.spare1.packed() + v.spare2.packed())))))))))), bytes@, q1);
            lemma_prefix_concat(v.totalstaked.packed(), v.totalrstaked.packed() + (v.totalrvoters.packed() + (v.notclaimed.packed() + (v.pool.packed() + (v.processtime.packed() + (v.processtimeupd.packed() + (v.isprocessing.packed() + (v.process_from.packed() + (v.process_quant.packed() + (v.processrstaked.packed() + (v.processed.packed() + (v.spare1.packed() + v.spare2.packed()))))))))))), bytes@, q0);
        }
        *pos = p;
        Ok(v)
    }

    #[verifier::spinoff_prover]
    #[verifier::rlimit(80)]
    fn write(&self, bytes: &mut [u8], pos: &mut usize) -> (r: Result<(), WriteError>) {
        proof {
            assert(self.packed().len() <= 105);
        }
        let n = self.num_bytes();
        let len = bytes.len();
        if *pos > len || n > len - *pos {
            return Err(WriteError::NotEnoughSpace);
        }
        let mut p = *pos;
        let ghost start = *pos as int;
        let ghost buf0 = bytes@;
        let _ = self.totalstaked.write(bytes, &mut p);
        let _ = self.totalrstaked.write(bytes, &mut p);
        proof {
            lemma_written_concat(buf0, start, self.totalstaked.packed(), self.totalrstaked.packed());
        }
        let _ = self.totalrvoters.write(bytes, &mut p);
        proof {
            lemma_written_concat(buf0, start, self.totalstaked.packed() + self.totalrstaked.packed(), self.totalrvoters.packed());
        }
        let _ = self.notclaimed.write(bytes, &mut p);
        proof {
            lemma_written_concat(buf0, start, self.totalstaked.packed() + self.totalrstaked.packed() + self.totalrvoters.packed(), self.notclaimed.packed());
        }
        let _ = self.pool.write(bytes, &mut p);
        proof {
            lemma_written_concat(buf0, start, self.totalstaked.packed() + self.totalrstaked.packed() + self.totalrvoters.packed() + self.notclaimed.packed(), self.pool.packed());
        }
        let _ = self.processtime.write(bytes, &mut p);
        proof {
            lemma_written_concat(buf0, start, self.totalstaked.packed() + self.totalrstaked.packed() + self.totalrvoters.packed() + self.notclaimed.packed() + self.pool.packed(), self.processtime.packed());
        }
        let _ = self.processtimeupd.write(bytes, &mut p);
        proof {
            lemma_written_concat(buf0, start, self.totalstaked.packed() + self.totalrstaked.packed() + self.totalrvoters.packed() + self.notclaimed.packed() + self.pool.packed() + self.processtime.packed(), self.processtimeupd.packed());
        }
        let _ = self.isprocessing.write(bytes, &mut p);
        proof {
            lemma_written_concat(buf0, start, self.totalstaked.packed() + self.totalrstaked.packed() + self.totalrvoters.packed() + self.notclaimed.packed() + self.pool.packed() + self.processtime.packed() + self.processtimeupd.packed(), self.isprocessing.packed());
        }
        let _ = self.process_from.write(bytes, &mut p);
        proof {
            lemma_written_concat(buf0, start, self.totalstaked.packed() + self.totalrstaked.packed() + self.totalrvoters.packed() + self.notclaimed.packed() + self.pool.packed() + self.processtime.packed() + self.processtimeupd.packed() + self.isprocessing.packed(), self.process_from.packed());
        }
        let _ = self.process_quant.write(bytes, &mut p);
        proof {
            lemma_written_concat(buf0, start, self.totalstaked.packed() + self.totalrstaked.packed() + self.totalrvoters.packed() + self.notclaimed.packed() + self.pool.packed() + self.processtime.packed() + self.processtimeupd.packed() + self.isprocessing.packed() + self.process_from.packed(), self.process_quant.packed());
        }
        let _ = self.processrstaked.write(bytes, &mut p);
        proof {
            lemma_written_concat(buf0, start, self.totalstaked.packed() + self.totalrstaked.packed() + self.totalrvoters.packed() + self.notclaimed.packed() + self.pool.packed() + self.processtime.packed() + self.processtimeupd.packed() + self.isprocessing.packed() + self.process_from.packed() + self.process_quant.packed(), self.processrstaked.packed());
        }
        let _ = self.processed.write(bytes, &mut p);
        proof {
            lemma_written_concat(buf0, start, self.totalstaked.packed() + self.totalrstaked.packed() + self.totalrvoters.packed() + self.notclaimed.packed() + self.pool.packed() + self.processtime.packed() + self.processtimeupd.packed() + self.isprocessing.packed() + self.process_from.packed() + self.process_quant.packed() + self.processrstaked.packed(), self.processed.packed());
        }
        let _ = self.spare1.write(bytes, &mut p);
        proof {
            lemma_written_concat(buf0, start, self.totalstaked.packed() + self.totalrstaked.packed() + self.totalrvoters.packed() + self.notclaimed.packed() + self.pool.packed() + self.processtime.packed() + self.processtimeupd.packed() + self.isprocessing.packed() + self.process_from.packed() + self.process_quant.packed() + self.processrstaked.packed() + self.processed.packed(), self.spare1.packed());
        }
        let _ = self.spare2.write(bytes, &mut p);
        proof {
            lemma_written_concat(buf0, start, self.totalstaked.packed() + self.totalrstaked.packed() + self.totalrvoters.packed() + self.notclaimed.packed() + self.pool.packed() + self.processtime.packed() + self.processtimeupd.packed() + self.isprocessing.packed() + self.process_from.packed() + self.process_quant.packed() + self.processrstaked.packed() + self.processed.packed() + self.spare1.packed(), self.spare2.packed());
        }
        proof {
            assert(self.totalstaked.packed() + self.totalrstaked.packed() + self.totalrvoters.packed() + self.notclaimed.packed() + self.pool.packed() + self.processtime.packed() + self.processtimeupd.packed() + self.isprocessing.packed() + self.process_from.packed() + self.process_quant.packed() + self.processrstaked.packed() + self.processed.packed() + self.spare1.packed() + self.spare2.packed() =~= self.packed());
        }
        *pos = p;
        Ok(())
    }
}

impl Packed for GlobalStateRAM {
    open spec fn packed(&self) -> Seq<u8> {
        self.ram_price_per_byte.packed() + (self.max_per_user_bytes.packed() + (self.ram_fee_percent.packed() + (self.total_ram.packed() + self.total_xpr.packed())))
    }

    proof fn lemma_unique(a: Self, b: Self, bytes: Seq<u8>, pos: int) {
        let ghost mut q = pos;
        lemma_prefix_concat(a.ram_price_per_byte.packed(), a.max_per_user_bytes.packed() + (a.ram_fee_percent.packed() + (a.total_ram.packed() + a.total_xpr.packed())), bytes, q);
        lemma_prefix_concat(b.ram_price_per_byte.packed(), b.max_per_user_bytes.packed() + (b.ram_fee_percent.packed() + (b.total_ram.packed() + b.total_xpr.packed())), bytes, q);
        <Asset as Packed>::lemma_unique(a.ram_price_per_byte, b.ram_price_per_byte, bytes, q);
        q = q + a.ram_price_per_byte.packed().len();
        lemma_prefix_concat(a.max_per_user_bytes.packed(), a.ram_fee_percent.packed() + (a.total_ram.packed() + a.total_xpr.packed()), bytes, q);
        lemma_prefix_concat(b.max_per_user_bytes.packed(), b.ram_fee_percent.packed() + (b.total_ram.packed() + b.total_xpr.packed()), bytes, q);
        <u64 as Packed>::lemma_unique(a.max_per_user_bytes, b.max_per_user_bytes, bytes, q);
        q = q + a.max_per_user_bytes.packed().len();
        lemma_prefix_concat(a.ram_fee_percent.packed(), a.total_ram.packed() + a.total_xpr.packed(), bytes, q);
        lemma_prefix_concat(b.ram_fee_percent.packed(), b.total_ram.packed() + b.total_xpr.packed(), bytes, q);
        <u64 as Packed>::lemma_unique(a.ram_fee_percent, b.ram_fee_percent, bytes, q);
        q = q + a.ram_fee_percent.packed().len();
        lemma_prefix_concat(a.total_ram.packed(), a.total_xpr.packed(), bytes, q);
        lemma_prefix_concat(b.total_ram.packed(), b.total_xpr.packed(), bytes, q);
        <u64 as Packed>::lemma_unique(a.total_ram, b.total_ram, bytes, q);
        q = q + a.total_ram.packed().len();
        <u64 as Packed>::lemma_unique(a.total_xpr, b.total_xpr, bytes, q);
    }

    open spec fn same_value(&self, other: &Self) -> bool {
        &&& self.ram_price_per_byte.same_value(&other.ram_price_per_byte)
        &&& self.max_per_user_bytes.same_value(&other.max_per_user_bytes)
        &&& self.ram_fee_percent.same_value(&other.ram_fee_percent)
        &&& self.total_ram.same_value(&other.total_ram)
        &&& self.total_xpr.same_value(&other.total_xpr)
    }

    proof fn lemma_injective(a: Self, b: Self) {
        let bytes = a.packed();
        let pos: int = 0;
        assert(bytes.subrange(0, bytes.len() as int) =~= bytes);
        let ghost mut q = pos;
        lemma_prefix_concat(a.ram_price_per_byte.packed(), a.max_per_user_bytes.packed() + (a.ram_fee_percent.packed() + (a.total_ram.packed() + a.total_xpr.packed())), bytes, q);
        lemma_prefix_concat(b.ram_price_per_byte.packed(), b.max_per_user_bytes.packed() + (b.ram_fee_percent.packed() + (b.total_ram.packed() + b.total_xpr.packed())), bytes, q);
        <Asset as Packed>::lemma_unique(a.ram_price_per_byte, b.ram_price_per_byte, bytes, q);
        <Asset as Packed>::lemma_injective(a.ram_price_per_byte, b.ram_price_per_byte);
        q = q + a.ram_price_per_byte.packed().len();
        lemma_prefix_concat(a.max_per_user_bytes.packed(), a.ram_fee_percent.packed() + (a.total_ram.packed() + a.total_xpr.packed()), bytes, q);
        lemma_prefix_concat(b.max_per_user_bytes.packed(), b.ram_fee_percent.packed() + (b.total_ram.packed() + b.total_xpr.packed()), bytes, q);
        <u64 as Packed>::lemma_unique(a.max_per_user_bytes, b.max_per_user_bytes, bytes, q);
        <u64 as Packed>::lemma_injective(a.max_per_user_bytes, b.max_per_user_bytes);
        q = q + a.max_per_user_bytes.packed().len();
        lemma_prefix_concat(a.ram_fee_percent.packed(), a.total_ram.packed() + a.total_xpr.packed(), bytes, q);
        lemma_prefix_concat(b.ram_fee_percent.packed(), b.total_ram.packed() + b.total_xpr.packed(), bytes, q);
        <u64 as Packed>::lemma_unique(a.ram_fee_percent, b.ram_fee_percent, bytes, q);
        <u64 as Packed>::lemma_injective(a.ram_fee_percent, b.ram_fee_percent);
        q = q + a.ram_fee_percent.packed().len();
        lemma_prefix_concat(a.total_ram.packed(), a.total_xpr.packed(), bytes, q);
        lemma_prefix_concat(b.total_ram.packed(), b.total_xpr.packed(), bytes, q);
        <u64 as Packed>::lemma_unique(a.total_ram, b.total_ram, bytes, q);
        <u64 as Packed>::lemma_injective(a.total_ram, b.total_ram);
        q = q + a.total_ram.packed().len();
        <u64 as Packed>::lemma_unique(a.total_xpr, b.total_xpr, bytes, q);
        <u64 as Packed>::lemma_injective(a.total_xpr, b.total_xpr);
    }

    fn num_bytes(&self) -> (n: usize) {
        self.ram_price_per_byte.num_bytes() + self.max_per_user_bytes.num_bytes() + self.ram_fee_percent.num_bytes() + self.total_ram.num_bytes() + self.total_xpr.num_bytes()
    }

    fn read(bytes: &[u8], pos: &mut usize) -> (r: Result<Self, ReadError>) {
        let mut p = *pos;
        let ghost q0: int = p as int;
        let x0 = match <Asset as Packed>::read(bytes, &mut p) {
            Ok(x) => x,
            Err(e) => {
                proof {
                    assert forall|v: GlobalStateRAM| !prefix_at(#[trigger] v.packed(), bytes@, *old(pos) as int) by {
                        if prefix_at(v.packed(), bytes@, *old(pos) as int) {
                            lemma_prefix_concat(v.ram_price_per_byte.packed(), v.max_per_user_bytes.packed() + (v.ram_fee_percent.packed() + (v.total_ram.packed() + v.total_xpr.packed())), bytes@, q0);
                        }
                    }
                }
                return Err(e);
            },
        };
        let ghost q1: int = p as int;
        let x1 = match <u64 as Packed>::read(bytes, &mut p) {
            Ok(x) => x,
            Err(e) => {
                proof {
                    assert forall|v: GlobalStateRAM| !prefix_at(#[trigger] v.packed(), bytes@, *old(pos) as int) by {
                        if prefix_at(v.packed(), bytes@, *old(pos) as int) {
                            lemma_prefix_concat(v.ram_price_per_byte.packed(), v.max_per_user_bytes.packed() + (v.ram_fee_percent.packed() + (v.total_ram.packed() + v.total_xpr.packed())), bytes@, q0);
                            <Asset as Packed>::lemma_unique(v.ram_price_per_byte, x0, bytes@, q0);
                            lemma_prefix_concat(v.max_per_user_bytes.packed(), v.ram_fee_percent.packed() + (v.total_ram.packed() + v.total_xpr.packed()), bytes@, q1);
                        }
                    }
                }
                return Err(e);
            },
        };
        let ghost q2: int = p as int;
        let x2 = match <u64 as Packed>::read(bytes, &mut p) {
            Ok(x) => x,
            Err(e) => {
                proof {
                    assert forall|v: GlobalStateRAM| !prefix_at(#[trigger] v.packed(), bytes@, *old(pos) as int) by {
                        if prefix_at(v.packed(), bytes@, *old(pos) as int) {
                            lemma_prefix_concat(v.ram_price_per_byte.packed(), v.max_per_user_bytes.packed() + (v.ram_fee_percent.packed() + (v.total_ram.packed() + v.total_xpr.packed())), bytes@, q0);
                            <Asset as Packed>::lemma_unique(v.ram_price_per_byte, x0, bytes@, q0);
                            lemma_prefix_concat(v.max_per_user_bytes.packed(), v.ram_fee_percent.packed() + (v.total_ram.packed() + v.total_xpr.packed()), bytes@, q1);
                            <u64 as Packed>::lemma_unique(v.max_per_user_bytes, x1, bytes@, q1);
                            lemma_prefix_concat(v.ram_fee_percent.packed(), v.total_ram.packed() + v.total_xpr.packed(), bytes@, q2);
                        }
                    }
                }
                return Err(e);
            },
        };
        let ghost q3: int = p as int;
        let x3 = match <u64 as Packed>::read(bytes, &mut p) {
            Ok(x) => x,
            Err(e) => {
                proof {
                    assert forall|v: GlobalStateRAM| !prefix_at(#[trigger] v.packed(), bytes@, *old(pos) as int) by {
                        if prefix_at(v.packed(), bytes@, *old(pos) as int) {
                            lemma_prefix_concat(v.ram_price_per_byte.packed(), v.max_per_user_bytes.packed() + (v.ram_fee_percent.packed() + (v.total_ram.packed() + v.total_xpr.packed())), bytes@, q0);
                            <Asset as Packed>::lemma_unique(v.ram_price_per_byte, x0, bytes@, q0);
                            lemma_prefix_concat(v.max_per_user_bytes.packed(), v.ram_fee_percent.packed() + (v.total_ram.packed() + v.total_xpr.packed()), bytes@, q1);
                            <u64 as Packed>::lemma_unique(v.max_per_user_bytes, x1, bytes@, q1);
                            lemma_prefix_concat(v.ram_fee_percent.packed(), v.total_ram.packed() + v.total_xpr.packed(), bytes@, q2);
                            <u64 as Packed>::lemma_unique(v.ram_fee_percent, x2, bytes@, q2);
                            lemma_prefix_concat(v.total_ram.packed(), v.total_xpr.packed(), bytes@, q3);
                        }
                    }
                }
                return Err(e);
            },
        };
        let ghost q4: int = p as int;
        let x4 = match <u64 as Packed>::read(bytes, &mut p) {
            Ok(x) => x,
            Err(e) => {
                proof {
                    assert forall|v: GlobalStateRAM| !prefix_at(#[trigger] v.packed(), bytes@, *old(pos) as int) by {
                        if prefix_at(v.packed(), bytes@, *old(pos) as int) {
                            lemma_prefix_concat(v.ram_price_per_byte.packed(), v.max_per_user_bytes.packed() + (v.ram_fee_percent.packed() + (v.total_ram.packed() + v.total_xpr.packed())), bytes@, q0);
                            <Asset as Packed>::lemma_unique(v.ram_price_per_byte, x0, bytes@, q0);
                            lemma_prefix_concat(v.max_per_user_bytes.packed(), v.ram_fee_percent.packed() + (v.total_ram.packed() + v.total_xpr.packed()), bytes@, q1);
                            <u64 as Packed>::lemma_unique(v.max_per_user_bytes, x1, bytes@, q1);
                            lemma_prefix_concat(v.ram_fee_percent.packed(), v.total_ram.packed() + v.total_xpr.packed(), bytes@, q2);
                            <u64 as Packed>::lemma_unique(v.ram_fee_percent, x2, bytes@, q2);
                            lemma_prefix_concat(v.total_ram.packed(), v.total_xpr.packed(), bytes@, q3);
                            <u64 as Packed>::lemma_unique(v.total_ram, x3, bytes@, q3);
                        }
                    }
                }
                return Err(e);
            },
        };
        let v = GlobalStateRAM { ram_price_per_byte: x0, max_per_user_bytes: x1, ram_fee_percent: x2, total_ram: x3, total_xpr: x4 };
        proof {
            lemma_prefix_concat(v.total_ram.packed(), v.total_xpr.packed(), bytes@, q3);
            lemma_prefix_concat(v.ram_fee_percent.packed(), v.total_ram.packed() + v.total_xpr.packed(), bytes@, q2);
            lemma_prefix_concat(v.max_per_user_bytes.packed(), v.ram_fee_percent.packed() + (v.total_ram.packed() + v.total_xpr.packed()), bytes@, q1);
            lemma_prefix_concat(v.ram_price_per_byte.packed(), v.max_per_user_bytes.packed() + (v.ram_fee_percent.packed() + (v.total_ram.packed() + v.total_xpr.packed())), bytes@, q0);
        }
        *pos = p;
        Ok(v)
    }

    fn write(&self, bytes: &mut [u8], pos: &mut usize) -> (r: Result<(), WriteError>) {
        proof {
            assert(self.packed().len() <= 48);
        }
        let n = self.num_bytes();
        let len = bytes.len();
        if *pos > len || n > len - *pos {
            return Err(WriteError::NotEnoughSpace);
        }
        let mut p = *pos;
        let ghost start = *pos as int;
        let ghost buf0 = bytes@;
        let _ = self.ram_price_per_byte.write(bytes, &mut p);
        let _ = self.max_per_user_bytes.write(bytes, &mut p);
        proof {
            lemma_written_concat(buf0, start, self.ram_price_per_byte.packed(), self.max_per_user_bytes.packed());
        }
        let _ = self.ram_fee_percent.write(bytes, &mut p);
        proof {
            lemma_written_concat(buf0, start, self.ram_price_per_byte.packed() + self.max_per_user_bytes.packed(), self.ram_fee_percent.packed());
        }
        let _ = self.total_ram.write(bytes, &mut p);
        proof {
            lemma_written_concat(buf0, start, self.ram_price_per_byte.packed() + self.max_per_user_bytes.packed() + self.ram_fee_percent.packed(), self.total_ram.packed());
        }
        let _ = self.total_xpr.write(bytes, &mut p);
        proof {
            lemma_written_concat(buf0, start, self.ram_price_per_byte.packed() + self.max_per_user_bytes.packed() + self.ram_fee_percent.packed() + self.total_ram.packed(), self.total_xpr.packed());
        }
        proof {
            assert(self.ram_price_per_byte.packed() + self.max_per_user_bytes.packed() + self.ram_fee_percent.packed() + self.total_ram.packed() + self.total_xpr.packed() =~= self.packed());
        }
        *pos = p;
        Ok(())
    }
}

impl Packed for UserRAM {
    open spec fn packed(&self) -> Seq<u8> {
        self.account.packed() + (self.ram.packed() + (self.quantity.packed() + self.ramlimit.packed()))
    }

    proof fn lemma_unique(a: Self, b: Self, bytes: Seq<u8>, pos: int) {
        let ghost mut q = pos;
        lemma_prefix_concat(a.account.packed(), a.ram.packed() + (a.quantity.packed() + a.ramlimit.packed()), bytes, q);
        lemma_prefix_concat(b.account.packed(), b.ram.packed() + (b.quantity.packed() + b.ramlimit.packed()), bytes, q);
        <Name as Packed>::lemma_unique(a.account, b.account, bytes, q);
        q = q + a.account.packed().len();
        lemma_prefix_concat(a.ram.packed(), a.quantity.packed() + a.ramlimit.packed(), bytes, q);
        lemma_prefix_concat(b.ram.packed(), b.quantity.packed() + b.ramlimit.packed(), bytes, q);
        <u64 as Packed>::lemma_unique(a.ram, b.ram, bytes, q);
        q = q + a.ram.packed().len();
        lemma_prefix_concat(a.quantity.packed(), a.ramlimit.packed(), bytes, q);
        lemma_prefix_concat(b.quantity.packed(), b.ramlimit.packed(), bytes, q);
        <Asset as Packed>::lemma_unique(a.quantity, b.quantity, bytes, q);
        q = q + a.quantity.packed().len();
        <u64 as Packed>::lemma_unique(a.ramlimit, b.ramlimit, bytes, q);
    }

    open spec fn same_value(&self, other: &Self) -> bool {
        &&& self.account.same_value(&other.account)
        &&& self.ram.same_value(&other.ram)
        &&& self.quantity.same_value(&other.quantity)
        &&& self.ramlimit.same_value(&other.ramlimit)
    }

    proof fn lemma_injective(a: Self, b: Self) {
        let bytes = a.packed();
        let pos: int = 0;
        assert(bytes.subrange(0, bytes.len() as int) =~= bytes);
        let ghost mut q = pos;
        lemma_prefix_concat(a.account.packed(), a.ram.packed() + (a.quantity.packed() + a.ramlimit.packed()), bytes, q);
        lemma_prefix_concat(b.account.packed(), b.ram.packed() + (b.quantity.packed() + b.ramlimit.packed()), bytes, q);
        <Name as Packed>::lemma_unique(a.account, b.account, bytes, q);
        <Name as Packed>::lemma_injective(a.account, b.account);
        q = q + a.account.packed().len();
        lemma_prefix_concat(a.ram.packed(), a.quantity.packed() + a.ramlimit.packed(), bytes, q);
        lemma_prefix_concat(b.ram.packed(), b.quantity.packed() + b.ramlimit.packed(), bytes, q);
        <u64 as Packed>::lemma_unique(a.ram, b.ram, bytes, q);
        <u64 as Packed>::lemma_injective(a.ram, b.ram);
        q = q + a.ram.packed().len();
        lemma_prefix_concat(a.quantity.packed(), a.ramlimit.packed(), bytes, q);
        lemma_prefix_concat(b.quantity.packed(), b.ramlimit.packed(), bytes, q);
        <Asset as Packed>::lemma_unique(a.quantity, b.quantity, bytes, q);
        <Asset as Packed>::lemma_injective(a.quantity, b.quantity);
        q = q + a.quantity.packed().len();
        <u64 as Packed>::lemma_unique(a.ramlimit, b.ramlimit, bytes, q);
        <u64 as Packed>::lemma_injective(a.ramlimit, b.ramlimit);
    }

    fn num_bytes(&self) -> (n: usize) {
        self.account.num_bytes() + self.ram.num_bytes() + self.quantity.num_bytes() + self.ramlimit.num_bytes()
    }

    fn read(bytes: &[u8], pos: &mut usize) -> (r: Result<Self, ReadError>) {
        let mut p = *pos;
        let ghost q0: int = p as int;
        let x0 = match <Name as Packed>::read(bytes, &mut p) {
            Ok(x) => x,
            Err(e) => {
                proof {
                    assert forall|v: UserRAM| !prefix_at(#[trigger] v.packed(), bytes@, *old(pos) as int) by {
                        if prefix_at(v.packed(), bytes@, *old(pos) as int) {
                            lemma_prefix_concat(v.account.packed(), v.ram.packed() + (v.quantity.packed() + v.ramlimit.packed()), bytes@, q0);
                        }
                    }
                }
                return Err(e);
            },
        };
        let ghost q1: int = p as int;
        let x1 = match <u64 as Packed>::read(bytes, &mut p) {
            Ok(x) => x,
            Err(e) => {
                proof {
                    assert forall|v: UserRAM| !prefix_at(#[trigger] v.packed(), bytes@, *old(pos) as int) by {
                        if prefix_at(v.packed(), bytes@, *old(pos) as int) {
                            lemma_prefix_concat(v.account.packed(), v.ram.packed() + (v.quantity.packed() + v.ramlimit.packed()), bytes@, q0);
                            <Name as Packed>::lemma_unique(v.account, x0, bytes@, q0);
                            lemma_prefix_concat(v.ram.packed(), v.quantity.packed() + v.ramlimit.packed(), bytes@, q1);
                        }
                    }
                }
                return Err(e);
            },
        };
        let ghost q2: int = p as int;
        let x2 = match <Asset as Packed>::read(bytes, &mut p) {
            Ok(x) => x,
            Err(e) => {
                proof {
                    assert forall|v: UserRAM| !prefix_at(#[trigger] v.packed(), bytes@, *old(pos) as int) by {
                        if prefix_at(v.packed(), bytes@, *old(pos) as int) {
                            lemma_prefix_concat(v.account.packed(), v.ram.packed() + (v.quantity.packed() + v.ramlimit.packed()), bytes@, q0);
                            <Name as Packed>::lemma_unique(v.account, x0, bytes@, q0);
                            lemma_prefix_concat(v.ram.packed(), v.quantity.packed() + v.ramlimit.packed(), bytes@, q1);
                            <u64 as Packed>::lemma_unique(v.ram, x1, bytes@, q1);
                            lemma_prefix_concat(v.quantity.packed(), v.ramlimit.packed(), bytes@, q2);
                        }
                    }
                }
                return Err(e);
            },
        };
        let ghost q3: int = p as int;
        let x3 = match <u64 as Packed>::read(bytes, &mut p) {
            Ok(x) => x,
            Err(e) => {
                proof {
                    assert forall|v: UserRAM| !prefix_at(#[trigger] v.packed(), bytes@, *old(pos) as int) by {
                        if prefix_at(v.packed(), bytes@, *old(pos) as int) {
                            lemma_prefix_concat(v.account.packed(), v.ram.packed() + (v.quantity.packed() + v.ramlimit.packed()), bytes@, q0);
                            <Name as Packed>::lemma_unique(v.account, x0, bytes@, q0);
                            lemma_prefix_concat(v.ram.packed(), v.quantity.packed() + v.ramlimit.packed(), bytes@, q1);
                            <u64 as Packed>::lemma_unique(v.ram, x1, bytes@, q1);
                            lemma_prefix_concat(v.quantity.packed(), v.ramlimit.packed(), bytes@, q2);
                            <Asset as Packed>::lemma_unique(v.quantity, x2, bytes@, q2);
                        }
                    }
                }
                return Err(e);
            },
        };
        let v = UserRAM { account: x0, ram: x1, quantity: x2, ramlimit: x3 };
        proof {
            lemma_prefix_concat(v.quantity.packed(), v.ramlimit.packed(), bytes@, q2);
            lemma_prefix_concat(v.ram.packed(), v.quantity.packed() + v.ramlimit.packed(), bytes@, q1);
            lemma_prefix_concat(v.account.packed(), v.ram.packed() + (v.quantity.packed() + v.ramlimit.packed()), bytes@, q0);
        }
        *pos = p;
        Ok(v)
    }

    fn write(&self, bytes: &mut [u8], pos: &mut usize) -> (r: Result<(), WriteError>) {
        proof {
            assert(self.packed().len() <= 40);
        }
        let n = self.num_bytes();
        let len = bytes.len();
        if *pos > len || n > len - *pos {
            return Err(WriteError::NotEnoughSpace);
        }
        let mut p = *pos;
        let ghost start = *pos as int;
        let ghost buf0 = bytes@;
        let _ = self.account.write(bytes, &mut p);
        let _ = self.ram.write(bytes, &mut p);
        proof {
            lemma_written_concat(buf0, start, self.account.packed(), self.ram.packed());
        }
        let _ = self.quantity.write(bytes, &mut p);
        proof {
            lemma_written_concat(buf0, start, self.account.packed() + self.ram.packed(), self.quantity.packed());
        }
        let _ = self.ramlimit.write(bytes, &mut p);
        proof {
            lemma_written_concat(buf0, start, self.account.packed() + self.ram.packed() + self.quantity.packed(), self.ramlimit.packed());
        }
        proof {
            assert(self.account.packed() + self.ram.packed() + self.quantity.packed() + self.ramlimit.packed() =~= self.packed());
        }
        *pos = p;
        Ok(())
    }
}

impl Packed for RexPool {
    open spec fn packed(&self) -> Seq<u8> {
        self.version.packed() + (self.total_lent.packed() + (self.total_unlent.packed() + (self.total_rent.packed() + (self.total_lendable.packed() + (self.total_rex.packed() + (self.namebid_proceeds.packed() + self.loan_num.packed()))))))
    }

    proof fn lemma_unique(a: Self, b: Self, bytes: Seq<u8>, pos: int) {
        let ghost mut q = pos;
        lemma_prefix_concat(a.version.packed(), a.total_lent.packed() + (a.total_unlent.packed() + (a.total_rent.packed() + (a.total_lendable.packed() + (a.total_rex.packed() + (a.namebid_proceeds.packed() + a.loan_num.packed()))))), bytes, q);
        lemma_prefix_concat(b.version.packed(), b.total_lent.packed() + (b.total_unlent.packed() + (b.total_rent.packed() + (b.total_lendable.packed() + (b.total_rex.packed() + (b.namebid_proceeds.packed() + b.loan_num.packed()))))), bytes, q);
        <u64 as Packed>::lemma_unique(a.version, b.version, bytes, q);
        q = q + a.version.packed().len();
        lemma_prefix_concat(a.total_lent.packed(), a.total_unlent.packed() + (a.total_rent.packed() + (a.total_lendable.packed() + (a.total_rex.packed() + (a.namebid_proceeds.packed() + a.loan_num.packed())))), bytes, q);
        lemma_prefix_concat(b.total_lent.packed(), b.total_unlent.packed() + (b.total_rent.packed() + (b.total_lendable.packed() + (b.total_rex.packed() + (b.namebid_proceeds.packed() + b.loan_num.packed())))), bytes, q);
        <Asset as Packed>::lemma_unique(a.total_lent, b.total_lent, bytes, q);
        q = q + a.total_lent.packed().len();
        lemma_prefix_concat(a.total_unlent.packed(), a.total_rent.packed() + (a.total_lendable.packed() + (a.total_rex.packed() + (a.namebid_proceeds.packed() + a.loan_num.packed()))), bytes, q);
        lemma_prefix_concat(b.total_unlent.packed(), b.total_rent.packed() + (b.total_lendable.packed() + (b.total_rex.packed() + (b.namebid_proceeds.packed() + b.loan_num.packed()))), bytes, q);
        <Asset as Packed>::lemma_unique(a.total_unlent, b.total_unlent, bytes, q);
        q = q + a.total_unlent.packed().len();
        lemma_prefix_concat(a.total_rent.packed(), a.total_lendable.packed() + (a.total_rex.packed() + (a.namebid_proceeds.packed() + a.loan_num.packed())), bytes, q);
        lemma_prefix_concat(b.total_rent.packed(), b.total_lendable.packed() + (b.total_rex.packed() + (b.namebid_proceeds.packed() + b.loan_num.packed())), bytes, q);
        <Asset as Packed>::lemma_unique(a.total_rent, b.total_rent, bytes, q);
        q = q + a.total_rent.packed().len();
        lemma_prefix_concat(a.total_lendable.packed(), a.total_rex.packed() + (a.namebid_proceeds.packed() + a.loan_num.packed()), bytes, q);
        lemma_prefix_concat(b.total_lendable.packed(), b.total_rex.packed() + (b.namebid_proceeds.packed() + b.loan_num.packed()), bytes, q);
        <Asset as Packed>::lemma_unique(a.total_lendable, b.total_lendable, bytes, q);
        q = q + a.total_lendable.packed().len();
        lemma_prefix_concat(a.total_rex.packed(), a.namebid_proceeds.packed() + a.loan_num.packed(), bytes, q);
        lemma_prefix_concat(b.total_rex.packed(), b.namebid_proceeds.packed() + b.loan_num.packed(), bytes, q);
        <Asset as Packed>::lemma_unique(a.total_rex, b.total_rex, bytes, q);
        q = q + a.total_rex.packed().len();
        lemma_prefix_concat(a.namebid_proceeds.packed(), a.loan_num.packed(), bytes, q);
        lemma_prefix_concat(b.namebid_proceeds.packed(), b.loan_num.packed(), bytes, q);
        <Asset as Packed>::lemma_unique(a.namebid_proceeds, b.namebid_proceeds, bytes, q);
        q = q + a.namebid_proceeds.packed().len();
        <u64 as Packed>::lemma_unique(a.loan_num, b.loan_num, bytes, q);
    }

    open spec fn same_value(&self, other: &Self) -> bool {
        &&& self.version.same_value(&other.version)
        &&& self.total_lent.same_value(&other.total_lent)
        &&& self.total_unlent.same_value(&other.total_unlent)
        &&& self.total_rent.same_value(&other.total_rent)
        &&& self.total_lendable.same_value(&other.total_lendable)
        &&& self.total_rex.same_value(&other.total_rex)
        &&& self.namebid_proceeds.same_value(&other.namebid_proceeds)
        &&& self.loan_num.same_value(&other.loan_num)
    }

    proof fn lemma_injective(a: Self, b: Self) {
        let bytes = a.packed();
        let pos: int = 0;
        assert(bytes.subrange(0, bytes.len() as int) =~= bytes);
        let ghost mut q = pos;
        lemma_prefix_concat(a.version.packed(), a.total_lent.packed() + (a.total_unlent.packed() + (a.total_rent.packed() + (a.total_lendable.packed() + (a.total_rex.packed() + (a.namebid_proceeds.packed() + a.loan_num.packed()))))), bytes, q);
        lemma_prefix_concat(b.version.packed(), b.total_lent.packed() + (b.total_unlent.packed() + (b.total_rent.packed() + (b.total_lendable.packed() + (b.total_rex.packed() + (b.namebid_proceeds.packed() + b.loan_num.packed()))))), bytes, q);
        <u64 as Packed>::lemma_unique(a.version, b.version, bytes, q);
        <u64 as Packed>::lemma_injective(a.version, b.version);
        q = q + a.version.packed().len();
        lemma_prefix_concat(a.total_lent.packed(), a.total_unlent.packed() + (a.total_rent.packed() + (a.total_lendable.packed() + (a.total_rex.packed() + (a.namebid_proceeds.packed() + a.loan_num.packed())))), bytes, q);
        lemma_prefix_concat(b.total_lent.packed(), b.total_unlent.packed() + (b.total_rent.packed() + (b.total_lendable.packed() + (b.total_rex.packed() + (b.namebid_proceeds.packed() + b.loan_num.packed())))), bytes, q);
        <Asset as Packed>::lemma_unique(a.total_lent, b.total_lent, bytes, q);
        <Asset as Packed>::lemma_injective(a.total_lent, b.total_lent);
        q = q + a.total_lent.packed().len();
        lemma_prefix_concat(a.total_unlent.packed(), a.total_rent.packed() + (a.total_lendable.packed() + (a.total_rex.packed() + (a.namebid_proceeds.packed() + a.loan_num.packed()))), bytes, q);
        lemma_prefix_concat(b.total_unlent.packed(), b.total_rent.packed() + (b.total_lendable.packed() + (b.total_rex.packed() + (b.namebid_proceeds.packed() + b.loan_num.packed()))), bytes, q);
        <Asset as Packed>::lemma_unique(a.total_unlent, b.total_unlent, bytes, q);
        <Asset as Packed>::lemma_injective(a.total_unlent, b.total_unlent);
        q = q + a.total_unlent.packed().len();
        lemma_prefix_concat(a.total_rent.packed(), a.total_lendable.packed() + (a.total_rex.packed() + (a.namebid_proceeds.packed() + a.loan_num.packed())), bytes, q);
        lemma_prefix_concat(b.total_rent.packed(), b.total_lendable.packed() + (b.total_rex.packed() + (b.namebid_proceeds.packed() + b.loan_num.packed())), bytes, q);
        <Asset as Packed>::lemma_unique(a.total_rent, b.total_rent, bytes, q);
        <Asset as Packed>::lemma_injective(a.total_rent, b.total_rent);
        q = q + a.total_rent.packed().len();
        lemma_prefix_concat(a.total_lendable.packed(), a.total_rex.packed() + (a.namebid_proceeds.packed() + a.loan_num.packed()), bytes, q);
        lemma_prefix_concat(b.total_lendable.packed(), b.total_rex.packed() + (b.namebid_proceeds.packed() + b.loan_num.packed()), bytes, q);
        <Asset as Packed>::lemma_unique(a.total_lendable, b.total_lendable, bytes, q);
        <Asset as Packed>::lemma_injective(a.total_lendable, b.total_lendable);
        q = q + a.total_lendable.packed().len();
        lemma_prefix_concat(a.total_rex.packed(), a.namebid_proceeds.packed() + a.loan_num.packed(), bytes, q);
        lemma_prefix_concat(b.total_rex.packed(), b.namebid_proceeds.packed() + b.loan_num.packed(), bytes, q);
        <Asset as Packed>::lemma_unique(a.total_rex, b.total_rex, bytes, q);
        <Asset as Packed>::lemma_injective(a.total_rex, b.total_rex);
        q = q + a.total_rex.packed().len();
        lemma_prefix_concat(a.namebid_proceeds.packed(), a.loan_num.packed(), bytes, q);
        lemma_prefix_concat(b.namebid_proceeds.packed(), b.loan_num.packed(), bytes, q);
        <Asset as Packed>::lemma_unique(a.namebid_proceeds, b.namebid_proceeds, bytes, q);
        <Asset as Packed>::lemma_injective(a.namebid_proceeds, b.namebid_proceeds);
        q = q + a.namebid_proceeds.packed().len();
        <u64 as Packed>::lemma_unique(a.loan_num, b.loan_num, bytes, q);
        <u64 as Packed>::lemma_injective(a.loan_num, b.loan_num);
    }

    fn num_bytes(&self) -> (n: usize) {
        self.version.num_bytes() + self.total_lent.num_bytes() + self.total_unlent.num_bytes() + self.total_rent.num_bytes() + self.total_lendable.num_bytes() + self.total_rex.num_bytes() + self.namebid_proceeds.num_bytes() + self.loan_num.num_bytes()
    }

    fn read(bytes: &[u8], pos: &mut usize) -> (r: Result<Self, ReadError>) {
        let mut p = *pos;
        let ghost q0: int = p as int;
        let x0 = match <u64 as Packed>::read(bytes, &mut p) {
            Ok(x) => x,
            Err(e) => {
                proof {
                    assert forall|v: RexPool| !prefix_at(#[trigger] v.packed(), bytes@, *old(pos) as int) by {
                        if prefix_at(v.packed(), bytes@, *old(pos) as int) {
                            lemma_prefix_concat(v.version.packed(), v.total_lent.packed() + (v.total_unlent.packed() + (v.total_rent.packed() + (v.total_lendable.packed() + (v.total_rex.packed() + (v.namebid_proceeds.packed() + v.loan_num.packed()))))), bytes@, q0);
                        }
                    }
                }
                return Err(e);
            },
        };
        let ghost q1: int = p as int;
        let x1 = match <Asset as Packed>::read(bytes, &mut p) {
            Ok(x) => x,
            Err(e) => {
                proof {
                    assert forall|v: RexPool| !prefix_at(#[trigger] v.packed(), bytes@, *old(pos) as int) by {
                        if prefix_at(v.packed(), bytes@, *old(pos) as int) {
                            lemma_prefix_concat(v.version.packed(), v.total_lent.packed() + (v.total_unlent.packed() + (v.total_rent.packed() + (v.total_lendable.packed() + (v.total_rex.packed() + (v.namebid_proceeds.packed() + v.loan_num.packed()))))), bytes@, q0);
                            <u64 as Packed>::lemma_unique(v.version, x0, bytes@, q0);
                            lemma_prefix_concat(v.total_lent.packed(), v.total_unlent.packed() + (v.total_rent.packed() + (v.total_lendable.packed() + (v.total_rex.packed() + (v.namebid_proceeds.packed() + v.loan_num.packed())))), bytes@, q1);
                        }
                    }
                }
                return Err(e);
            },
        };
        let ghost q2: int = p as int;
        let x2 = match <Asset as Packed>::read(bytes, &mut p) {
            Ok(x) => x,
            Err(e) => {
                proof {
                    assert forall|v: RexPool| !prefix_at(#[trigger] v.packed(), bytes@, *old(pos) as int) by {
                        if prefix_at(v.packed(), bytes@, *old(pos) as int) {
                            lemma_prefix_concat(v.version.packed(), v.total_lent.packed() + (v.total_unlent.packed() + (v.total_rent.packed() + (v.total_lendable.packed() + (v.total_rex.packed() + (v.namebid_proceeds.packed() + v.loan_num.packed()))))), bytes@, q0);
                            <u64 as Packed>::lemma_unique(v.version, x0, bytes@, q0);
                            lemma_prefix_concat(v.total_lent.packed(), v.total_unlent.packed() + (v.total_rent.packed() + (v.total_lendable.packed() + (v.total_rex.packed() + (v.namebid_proceeds.packed() + v.loan_num.packed())))), bytes@, q1);
                            <Asset as Packed>::lemma_unique(v.total_lent, x1, bytes@, q1);
                            lemma_prefix_concat(v.total_unlent.packed(), v.total_rent.packed() + (v.total_lendable.packed() + (v.total_rex.packed() + (v.namebid_proceeds.packed() + v.loan_num.packed()))), bytes@, q2);
                        }
                    }
                }
                return Err(e);
            },
        };
        let ghost q3: int = p as int;
        let x3 = match <Asset as Packed>::read(bytes, &mut p) {
            Ok(x) => x,
            Err(e) => {
                proof {
                    assert forall|v: RexPool| !prefix_at(#[trigger] v.packed(), bytes@, *old(pos) as int) by {
                        if prefix_at(v.packed(), bytes@, *old(pos) as int) {
                            lemma_prefix_concat(v.version.packed(), v.total_lent.packed() + (v.total_unlent.packed() + (v.total_rent.packed() + (v.total_lendable.packed() + (v.total_rex.packed() + (v.namebid_proceeds.packed() + v.loan_num.packed()))))), bytes@, q0);
                            <u64 as Packed>::lemma_unique(v.version, x0, bytes@, q0);
                            lemma_prefix_concat(v.total_lent.packed(), v.total_unlent.packed() + (v.total_rent.packed() + (v.total_lendable.packed() + (v.total_rex.packed() + (v.namebid_proceeds.packed() + v.loan_num.packed())))), bytes@, q1);
                            <Asset as Packed>::lemma_unique(v.total_lent, x1, bytes@, q1);
                            lemma_prefix_concat(v.total_unlent.packed(), v.total_rent.packed() + (v.total_lendable.packed() + (v.total_rex.packed() + (v.namebid_proceeds.packed() + v.loan_num.packed()))), bytes@, q2);
                            <Asset as Packed>::lemma_unique(v.total_unlent, x2, bytes@, q2);
                            lemma_prefix_concat(v.total_rent.packed(), v.total_lendable.packed() + (v.total_rex.packed() + (v.namebid_proceeds.packed() + v.loan_num.packed())), bytes@, q3);
                        }
                    }
                }
                return Err(e);
            },
        };
        let ghost q4: int = p as int;
        let x4 = match <Asset as Packed>::read(bytes, &mut p) {
            Ok(x) => x,
            Err(e) => {
                proof {
                    assert forall|v: RexPool| !prefix_at(#[trigger] v.packed(), bytes@, *old(pos) as int) by {
                        if prefix_at(v.packed(), bytes@, *old(pos) as int) {
                            lemma_prefix_concat(v.version.packed(), v.total_lent.packed() + (v.total_unlent.packed() + (v.total_rent.packed() + (v.total_lendable.packed() + (v.total_rex.packed() + (v.namebid_proceeds.packed() + v.loan_num.packed()))))), bytes@, q0);
                            <u64 as Packed>::lemma_unique(v.version, x0, bytes@, q0);
                            lemma_prefix_concat(v.total_lent.packed(), v.total_unlent.packed() + (v.total_rent.packed() + (v.total_lendable.packed() + (v.total_rex.packed() + (v.namebid_proceeds.packed() + v.loan_num.packed())))), bytes@, q1);
                            <Asset as Packed>::lemma_unique(v.total_lent, x1, bytes@, q1);
                            lemma_prefix_concat(v.total_unlent.packed(), v.total_rent.packed() + (v.total_lendable.packed() + (v.total_rex.packed() + (v.namebid_proceeds.packed() + v.loan_num.packed()))), bytes@, q2);
                            <Asset as Packed>::lemma_unique(v.total_unlent, x2, bytes@, q2);
                            lemma_prefix_concat(v.total_rent.packed(), v.total_lendable.packed() + (v.total_rex.packed() + (v.namebid_proceeds.packed() + v.loan_num.packed())), bytes@, q3);
                            <Asset as Packed>::lemma_unique(v.total_rent, x3, bytes@, q3);
                            lemma_prefix_concat(v.total_lendable.packed(), v.total_rex.packed() + (v.namebid_proceeds.packed() + v.loan_num.packed()), bytes@, q4);
                        }
                    }
                }
                return Err(e);
            },
        };
        let ghost q5: int = p as int;
        let x5 = match <Asset as Packed>::read(bytes, &mut p) {
            Ok(x) => x,
            Err(e) => {
                proof {
                    assert forall|v: RexPool| !prefix_at(#[trigger] v.packed(), bytes@, *old(pos) as int) by {
                        if prefix_at(v.packed(), bytes@, *old(pos) as int) {
                            lemma_prefix_concat(v.version.packed(), v.total_lent.packed() + (v.total_unlent.packed() + (v.total_rent.packed() + (v.total_lendable.packed() + (v.total_rex.packed() + (v.namebid_proceeds.packed() + v.loan_num.packed()))))), bytes@, q0);
                            <u64 as Packed>::lemma_unique(v.version, x0, bytes@, q0);
                            lemma_prefix_concat(v.total_lent.packed(), v.total_unlent.packed() + (v.total_rent.packed() + (v.total_lendable.packed() + (v.total_rex.packed() + (v.namebid_proceeds.packed() + v.loan_num.packed())))), bytes@, q1);
                            <Asset as Packed>::lemma_unique(v.total_lent, x1, bytes@, q1);
                            lemma_prefix_concat(v.total_unlent.packed(), v.total_rent.packed() + (v.total_lendable.packed() + (v.total_rex.packed() + (v.namebid_proceeds.packed() + v.loan_num.packed()))), bytes@, q2);
                            <Asset as Packed>::lemma_unique(v.total_unlent, x2, bytes@, q2);
                            lemma_prefix_concat(v.total_rent.packed(), v.total_lendable.packed() + (v.total_rex.packed() + (v.namebid_proceeds.packed() + v.loan_num.packed())), bytes@, q3);
                            <Asset as Packed>::lemma_unique(v.total_rent, x3, bytes@, q3);
                            lemma_prefix_concat(v.total_lendable.packed(), v.total_rex.packed() + (v.namebid_proceeds.packed() + v.loan_num.packed()), bytes@, q4);
                            <Asset as Packed>::lemma_unique(v.total_lendable, x4, bytes@, q4);
                            lemma_prefix_concat(v.total_rex.packed(), v.namebid_proceeds.packed() + v.loan_num.packed(), bytes@, q5);
                        }
                    }
                }
                return Err(e);
            },
        };
        let ghost q6: int = p as int;
        let x6 = match <Asset as Packed>::read(bytes, &mut p) {
            Ok(x) => x,
            Err(e) => {
                proof {
                    assert forall|v: RexPool| !prefix_at(#[trigger] v.packed(), bytes@, *old(pos) as int) by {
                        if prefix_at(v.packed(), bytes@, *old(pos) as int) {
                            lemma_prefix_concat(v.version.packed(), v.total_lent.packed() + (v.total_unlent.packed() + (v.total_rent.packed() + (v.total_lendable.packed() + (v.total_rex.packed() + (v.namebid_proceeds.packed() + v.loan_num.packed()))))), bytes@, q0);
                            <u64 as Packed>::lemma_unique(v.version, x0, bytes@, q0);
                            lemma_prefix_concat(v.total_lent.packed(), v.total_unlent.packed() + (v.total_rent.packed() + (v.total_lendable.packed() + (v.total_rex.packed() + (v.namebid_proceeds.packed() + v.loan_num.packed())))), bytes@, q1);
                            <Asset as Packed>::lemma_unique(v.total_lent, x1, bytes@, q1);
                            lemma_prefix_concat(v.total_unlent.packed(), v.total_rent.packed() + (v.total_lendable.packed() + (v.total_rex.packed() + (v.namebid_proceeds.packed() + v.loan_num.packed()))), bytes@, q2);
                            <Asset as Packed>::lemma_unique(v.total_unlent, x2, bytes@, q2);
                            lemma_prefix_concat(v.total_rent.packed(), v.total_lendable.packed() + (v.total_rex.packed() + (v.namebid_proceeds.packed() + v.loan_num.packed())), bytes@, q3);
                            <Asset as Packed>::lemma_unique(v.total_rent, x3, bytes@, q3);
                            lemma_prefix_concat(v.total_lendable.packed(), v.total_rex.packed() + (v.namebid_proceeds.packed() + v.loan_num.packed()), bytes@, q4);
                            <Asset as Packed>::lemma_unique(v.total_lendable, x4, bytes@, q4);
                            lemma_prefix_concat(v.total_rex.packed(), v.namebid_proceeds.packed() + v.loan_num.packed(), bytes@, q5);
                            <Asset as Packed>::lemma_unique(v.total_rex, x5, bytes@, q5);
                            lemma_prefix_concat(v.namebid_proceeds.packed(), v.loan_num.packed(), bytes@, q6);
                        }
                    }
                }
                return Err(e);
            },
        };
        let ghost q7: int = p as int;
        let x7 = match <u64 as Packed>::read(bytes, &mut p) {
            Ok(x) => x,
            Err(e) => {
                proof {
                    assert forall|v: RexPool| !prefix_at(#[trigger] v.packed(), bytes@, *old(pos) as int) by {
                        if prefix_at(v.packed(), bytes@, *old(pos) as int) {
                            lemma_prefix_concat(v.version.packed(), v.total_lent.packed() + (v.total_unlent.packed() + (v.total_rent.packed() + (v.total_lendable.packed() + (v.total_rex.packed() + (v.namebid_proceeds.packed() + v.loan_num.packed()))))), bytes@, q0);
                            <u64 as Packed>::lemma_unique(v.version, x0, bytes@, q0);
                            lemma_prefix_concat(v.total_lent.packed(), v.total_unlent.packed() + (v.total_rent.packed() + (v.total_lendable.packed() + (v.total_rex.packed() + (v.namebid_proceeds.packed() + v.loan_num.packed())))), bytes@, q1);
                            <Asset as Packed>::lemma_unique(v.total_lent, x1, bytes@, q1);
                            lemma_prefix_concat(v.total_unlent.packed(), v.total_rent.packed() + (v.total_lendable.packed() + (v.total_rex.packed() + (v.namebid_proceeds.packed() + v.loan_num.packed()))), bytes@, q2);
                            <Asset as Packed>::lemma_unique(v.total_unlent, x2, bytes@, q2);
                            lemma_prefix_concat(v.total_rent.packed(), v.total_lendable.packed() + (v.total_rex.packed() + (v.namebid_proceeds.packed() + v.loan_num.packed())), bytes@, q3);
                            <Asset as Packed>::lemma_unique(v.total_rent, x3, bytes@, q3);
                            lemma_prefix_concat(v.total_lendable.packed(), v.total_rex.packed() + (v.namebid_proceeds.packed() + v.loan_num.packed()), bytes@, q4);
                            <Asset as Packed>::lemma_unique(v.total_lendable, x4, bytes@, q4);
                            lemma_prefix_concat(v.total_rex.packed(), v.namebid_proceeds.packed() + v.loan_num.packed(), bytes@, q5);
                            <Asset as Packed>::lemma_unique(v.total_rex, x5, bytes@, q5);
                            lemma_prefix_concat(v.namebid_proceeds.packed(), v.loan_num.packed(), bytes@, q6);
                            <Asset as Packed>::lemma_unique(v.namebid_proceeds, x6, bytes@, q6);
                        }
                    }
                }
                return Err(e);
            },
        };
        let v = RexPool { version: x0, total_lent: x1, total_unlent: x2, total_rent: x3, total_lendable: x4, total_rex: x5, namebid_proceeds: x6, loan_num: x7 };
        proof {
            lemma_prefix_concat(v.namebid_proceeds.packed(), v.loan_num.packed(), bytes@, q6);
            lemma_prefix_concat(v.total_rex.packed(), v.namebid_proceeds.packed() + v.loan_num.packed(), bytes@, q5);
            lemma_prefix_concat(v.total_lendable.packed(), v.total_rex.packed() + (v.namebid_proceeds.packed() + v.loan_num.packed()), bytes@, q4);
            lemma_prefix_concat(v.total_rent.packed(), v.total_lendable.packed() + (v.total_rex.packed() + (v.namebid_proceeds.packed() + v.loan_num.packed())), bytes@, q3);
            lemma_prefix_concat(v.total_unlent.packed(), v.total_rent.packed() + (v.total_lendable.packed() + (v.total_rex.packed() + (v.namebid_proceeds.packed() + v.loan_num.packed()))), bytes@, q2);
            lemma_prefix_concat(v.total_lent.packed(), v.total_unlent.packed() + (v.total_rent.packed() + (v.total_lendable.packed() + (v.total_rex.packed() + (v.namebid_proceeds.packed() + v.loan_num.packed())))), bytes@, q1);
            lemma_prefix_concat(v.version.packed(), v.total_lent.packed() + (v.total_unlent.packed() + (v.total_rent.packed() + (v.total_lendable.packed() + (v.total_rex.packed() + (v.namebid_proceeds.packed() + v.loan_num.packed()))))), bytes@, q0);
        }
        *pos = p;
        Ok(v)
    }

    fn write(&self, bytes: &mut [u8], pos: &mut usize) -> (r: Result<(), WriteError>) {
        proof {
            assert(self.packed().len() <= 112);
        }
        let n = self.num_bytes();
        let len = bytes.len();
        if *pos > len || n > len - *pos {
            return Err(WriteError::NotEnoughSpace);
        }
        let mut p = *pos;
        let ghost start = *pos as int;
        let ghost buf0 = bytes@;
        let _ = self.version.write(bytes, &mut p);
        let _ = self.total_lent.write(bytes, &mut p);
        proof {
            lemma_written_concat(buf0, start, self.version.packed(), self.total_lent.packed());
        }
        let _ = self.total_unlent.write(bytes, &mut p);
        proof {
            lemma_written_concat(buf0, start, self.version.packed() + self.total_lent.packed(), self.total_unlent.packed());
        }
        let _ = self.total_rent.write(bytes, &mut p);
        proof {
            lemma_written_concat(buf0, start, self.version.packed() + self.total_lent.packed() + self.total_unlent.packed(), self.total_rent.packed());
        }
        let _ = self.total_lendable.write(bytes, &mut p);
        proof {
            lemma_written_concat(buf0, start, self.version.packed() + self.total_lent.packed() + self.total_unlent.packed() + self.total_rent.packed(), self.total_lendable.packed());
        }
        let _ = self.total_rex.write(bytes, &mut p);
        proof {
            lemma_written_concat(buf0, start, self.version.packed() + self.total_lent.packed() + self.total_unlent.packed() + self.total_rent.packed() + self.total_lendable.packed(), self.total_rex.packed());
        }
        let _ = self.namebid_proceeds.write(bytes, &mut p);
        proof {
            lemma_written_concat(buf0, start, self.version.packed() + self.total_lent.packed() + self.total_unlent.packed() + self.total_rent.packed() + self.total_lendable.packed() + self.total_rex.packed(), self.namebid_proceeds.packed());
        }
        let _ = self.loan_num.write(bytes, &mut p);
        proof {
            lemma_written_concat(buf0, start, self.version.packed() + self.total_lent.packed() + self.total_unlent.packed() + self.total_rent.packed() + self.total_lendable.packed() + self.total_rex.packed() + self.namebid_proceeds.packed(), self.loan_num.packed());
        }
        proof {
            assert(self.version.packed() + self.total_lent.packed() + self.total_unlent.packed() + self.total_rent.packed() + self.total_lendable.packed() + self.total_rex.packed() + self.namebid_proceeds.packed() + self.loan_num.packed() =~= self.packed());
        }
        *pos = p;
        Ok(())
    }
}

impl Packed for RexReturnPool {
    open spec fn packed(&self) -> Seq<u8> {
        self.version.packed() + (self.last_dist_time.packed() + (self.pending_bucket_time.packed() + (self.oldest_bucket_time.packed() + (self.pending_bucket_proceeds.packed() + (self.current_rate_of_proceeds.packed() + self.proceeds.packed())))))
    }

    proof fn lemma_unique(a: Self, b: Self, bytes: Seq<u8>, pos: int) {
        let ghost mut q = pos;
        lemma_prefix_concat(a.version.packed(), a.last_dist_time.packed() + (a.pending_bucket_time.packed() + (a.oldest_bucket_time.packed() + (a.pending_bucket_proceeds.packed() + (a.current_rate_of_proceeds.packed() + a.proceeds.packed())))), bytes, q);
        lemma_prefix_concat(b.version.packed(), b.last_dist_time.packed() + (b.pending_bucket_time.packed() + (b.oldest_bucket_time.packed() + (b.pending_bucket_proceeds.packed() + (b.current_rate_of_proceeds.packed() + b.proceeds.packed())))), bytes, q);
        <u64 as Packed>::lemma_unique(a.version, b.version, bytes, q);
        q = q + a.version.packed().len();
        lemma_prefix_concat(a.last_dist_time.packed(), a.pending_bucket_time.packed() + (a.oldest_bucket_time.packed() + (a.pending_bucket_proceeds.packed() + (a.current_rate_of_proceeds.packed() + a.proceeds.packed()))), bytes, q);
        lemma_prefix_concat(b.last_dist_time.packed(), b.pending_bucket_time.packed() + (b.oldest_bucket_time.packed() + (b.pending_bucket_proceeds.packed() + (b.current_rate_of_proceeds.packed() + b.proceeds.packed()))), bytes, q);
        <TimePointSec as Packed>::lemma_unique(a.last_dist_time, b.last_dist_time, bytes, q);
        q = q + a.last_dist_time.packed().len();
        lemma_prefix_concat(a.pending_bucket_time.packed(), a.oldest_bucket_time.packed() + (a.pending_bucket_proceeds.packed() + (a.current_rate_of_proceeds.packed() + a.proceeds.packed())), bytes, q);
        lemma_prefix_concat(b.pending_bucket_time.packed(), b.oldest_bucket_time.packed() + (b.pending_bucket_proceeds.packed() + (b.current_rate_of_proceeds.packed() + b.proceeds.packed())), bytes, q);
        <TimePointSec as Packed>::lemma_unique(a.pending_bucket_time, b.pending_bucket_time, bytes, q);
        q = q + a.pending_bucket_time.packed().len();
        lemma_prefix_concat(a.oldest_bucket_time.packed(), a.pending_bucket_proceeds.packed() + (a.current_rate_of_proceeds.packed() + a.proceeds.packed()), bytes, q);
        lemma_prefix_concat(b.oldest_bucket_time.packed(), b.pending_bucket_proceeds.packed() + (b.current_rate_of_proceeds.packed() + b.proceeds.packed()), bytes, q);
        <TimePointSec as Packed>::lemma_unique(a.oldest_bucket_time, b.oldest_bucket_time, bytes, q);
        q = q + a.oldest_bucket_time.packed().len();
        lemma_prefix_concat(a.pending_bucket_proceeds.packed(), a.current_rate_of_proceeds.packed() + a.proceeds.packed(), bytes, q);
        lemma_prefix_concat(b.pending_bucket_proceeds.packed(), b.current_rate_of_proceeds.packed() + b.proceeds.packed(), bytes, q);
        <i64 as Packed>::lemma_unique(a.pending_bucket_proceeds, b.pending_bucket_proceeds, bytes, q);
        q = q + a.pending_bucket_proceeds.packed().len();
        lemma_prefix_concat(a.current_rate_of_proceeds.packed(), a.proceeds.packed(), bytes, q);
        lemma_prefix_concat(b.current_rate_of_proceeds.packed(), b.proceeds.packed(), bytes, q);
        <i64 as Packed>::lemma_unique(a.current_rate_of_proceeds, b.current_rate_of_proceeds, bytes, q);
        q = q + a.current_rate_of_proceeds.packed().len();
        <i64 as Packed>::lemma_unique(a.proceeds, b.proceeds, bytes, q);
    }

    open spec fn same_value(&self, other: &Self) -> bool {
        &&& self.version.same_value(&other.version)
        &&& self.last_dist_time.same_value(&other.last_dist_time)
        &&& self.pending_bucket_time.same_value(&other.pending_bucket_time)
        &&& self.oldest_bucket_time.same_value(&other.oldest_bucket_time)
        &&& self.pending_bucket_proceeds.same_value(&other.pending_bucket_proceeds)
        &&& self.current_rate_of_proceeds.same_value(&other.current_rate_of_proceeds)
        &&& self.proceeds.same_value(&other.proceeds)
    }

    proof fn lemma_injective(a: Self, b: Self) {
        let bytes = a.packed();
        let pos: int = 0;
        assert(bytes.subrange(0, bytes.len() as int) =~= bytes);
        let ghost mut q = pos;
        lemma_prefix_concat(a.version.packed(), a.last_dist_time.packed() + (a.pending_bucket_time.packed() + (a.oldest_bucket_time.packed() + (a.pending_bucket_proceeds.packed() + (a.current_rate_of_proceeds.packed() + a.proceeds.packed())))), bytes, q);
        lemma_prefix_concat(b.version.packed(), b.last_dist_time.packed() + (b.pending_bucket_time.packed() + (b.oldest_bucket_time.packed() + (b.pending_bucket_proceeds.packed() + (b.current_rate_of_proceeds.packed() + b.proceeds.packed())))), bytes, q);
        <u64 as Packed>::lemma_unique(a.version, b.version, bytes, q);
        <u64 as Packed>::lemma_injective(a.version, b.version);
        q = q + a.version.packed().len();
        lemma_prefix_concat(a.last_dist_time.packed(), a.pending_bucket_time.packed() + (a.oldest_bucket_time.packed() + (a.pending_bucket_proceeds.packed() + (a.current_rate_of_proceeds.packed() + a.proceeds.packed()))), bytes, q);
        lemma_prefix_concat(b.last_dist_time.packed(), b.pending_bucket_time.packed() + (b.oldest_bucket_time.packed() + (b.pending_bucket_proceeds.packed() + (b.current_rate_of_proceeds.packed() + b.proceeds.packed()))), bytes, q);
        <TimePointSec as Packed>::lemma_unique(a.last_dist_time, b.last_dist_time, bytes, q);
        <TimePointSec as Packed>::lemma_injective(a.last_dist_time, b.last_dist_time);
        q = q + a.last_dist_time.packed().len();
        lemma_prefix_concat(a.pending_bucket_time.packed(), a.oldest_bucket_time.packed() + (a.pending_bucket_proceeds.packed() + (a.current_rate_of_proceeds.packed() + a.proceeds.packed())), bytes, q);
        lemma_prefix_concat(b.pending_bucket_time.packed(), b.oldest_bucket_time.packed() + (b.pending_bucket_proceeds.packed() + (b.current_rate_of_proceeds.packed() + b.proceeds.packed())), bytes, q);
        <TimePointSec as Packed>::lemma_unique(a.pending_bucket_time, b.pending_bucket_time, bytes, q);
        <TimePointSec as Packed>::lemma_injective(a.pending_bucket_time, b.pending_bucket_time);
        q = q + a.pending_bucket_time.packed().len();
        lemma_prefix_concat(a.oldest_bucket_time.packed(), a.pending_bucket_proceeds.packed() + (a.current_rate_of_proceeds.packed() + a.proceeds.packed()), bytes, q);
        lemma_prefix_concat(b.oldest_bucket_time.packed(), b.pending_bucket_proceeds.packed() + (b.current_rate_of_proceeds.packed() + b.proceeds.packed()), bytes, q);
        <TimePointSec as Packed>::lemma_unique(a.oldest_bucket_time, b.oldest_bucket_time, bytes, q);
        <TimePointSec as Packed>::lemma_injective(a.oldest_bucket_time, b.oldest_bucket_time);
        q = q + a.oldest_bucket_time.packed().len();
        lemma_prefix_concat(a.pending_bucket_proceeds.packed(), a.current_rate_of_proceeds.packed() + a.proceeds.packed(), bytes, q);
        lemma_prefix_concat(b.pending_bucket_proceeds.packed(), b.current_rate_of_proceeds.packed() + b.proceeds.packed(), bytes, q);
        <i64 as Packed>::lemma_unique(a.pending_bucket_proceeds, b.pending_bucket_proceeds, bytes, q);
        <i64 as Packed>::lemma_injective(a.pending_bucket_proceeds, b.pending_bucket_proceeds);
        q = q + a.pending_bucket_proceeds.packed().len();
        lemma_prefix_concat(a.current_rate_of_proceeds.packed(), a.proceeds.packed(), bytes, q);
        lemma_prefix_concat(b.current_rate_of_proceeds.packed(), b.proceeds.packed(), bytes, q);
        <i64 as Packed>::lemma_unique(a.current_rate_of_proceeds, b.current_rate_of_proceeds, bytes, q);
        <i64 as Packed>::lemma_injective(a.current_rate_of_proceeds, b.current_rate_of_proceeds);
        q = q + a.current_rate_of_proceeds.packed().len();
        <i64 as Packed>::lemma_unique(a.proceeds, b.proceeds, bytes, q);
        <i64 as Packed>::lemma_injective(a.proceeds, b.proceeds);
    }

    fn num_bytes(&self) -> (n: usize) {
        self.version.num_bytes() + self.last_dist_time.num_bytes() + self.pending_bucket_time.num_bytes() + self.oldest_bucket_time.num_bytes() + self.pending_bucket_proceeds.num_bytes() + self.current_rate_of_proceeds.num_bytes() + self.proceeds.num_bytes()
    }

    fn read(bytes: &[u8], pos: &mut usize) -> (r: Result<Self, ReadError>) {
        let mut p = *pos;
        let ghost q0: int = p as int;
        let x0 = match <u64 as Packed>::read(bytes, &mut p) {
            Ok(x) => x,
            Err(e) => {
                proof {
                    assert forall|v: RexReturnPool| !prefix_at(#[trigger] v.packed(), bytes@, *old(pos) as int) by {
                        if prefix_at(v.packed(), bytes@, *old(pos) as int) {
                            lemma_prefix_concat(v.version.packed(), v.last_dist_time.packed() + (v.pending_bucket_time.packed() + (v.oldest_bucket_time.packed() + (v.pending_bucket_proceeds.packed() + (v.current_rate_of_proceeds.packed() + v.proceeds.packed())))), bytes@, q0);
                        }
                    }
                }
                return Err(e);
            },
        };
        let ghost q1: int = p as int;
        let x1 = match <TimePointSec as Packed>::read(bytes, &mut p) {
            Ok(x) => x,
            Err(e) => {
                proof {
                    assert forall|v: RexReturnPool| !prefix_at(#[trigger] v.packed(), bytes@, *old(pos) as int) by {
                        if prefix_at(v.packed(), bytes@, *old(pos) as int) {
                            lemma_prefix_concat(v.version.packed(), v.last_dist_time.packed() + (v.pending_bucket_time.packed() + (v.oldest_bucket_time.packed() + (v.pending_bucket_proceeds.packed() + (v.current_rate_of_proceeds.packed() + v.proceeds.packed())))), bytes@, q0);
                            <u64 as Packed>::lemma_unique(v.version, x0, bytes@, q0);
                            lemma_prefix_concat(v.last_dist_time.packed(), v.pending_bucket_time.packed() + (v.oldest_bucket_time.packed() + (v.pending_bucket_proceeds.packed() + (v.current_rate_of_proceeds.packed() + v.proceeds.packed()))), bytes@, q1);
                        }
                    }
                }
                return Err(e);
            },
        };
        let ghost q2: int = p as int;
        let x2 = match <TimePointSec as Packed>::read(bytes, &mut p) {
            Ok(x) => x,
            Err(e) => {
                proof {
                    assert forall|v: RexReturnPool| !prefix_at(#[trigger] v.packed(), bytes@, *old(pos) as int) by {
                        if prefix_at(v.packed(), bytes@, *old(pos) as int) {
                            lemma_prefix_concat(v.version.packed(), v.last_dist_time.packed() + (v.pending_bucket_time.packed() + (v.oldest_bucket_time.packed() + (v.pending_bucket_proceeds.packed() + (v.current_rate_of_proceeds.packed() + v.proceeds.packed())))), bytes@, q0);
                            <u64 as Packed>::lemma_unique(v.version, x0, bytes@, q0);
                            lemma_prefix_concat(v.last_dist_time.packed(), v.pending_bucket_time.packed() + (v.oldest_bucket_time.packed() + (v.pending_bucket_proceeds.packed() + (v.current_rate_of_proceeds.packed() + v.proceeds.packed()))), bytes@, q1);
                            <TimePointSec as Packed>::lemma_unique(v.last_dist_time, x1, bytes@, q1);
                            lemma_prefix_concat(v.pending_bucket_time.packed(), v.oldest_bucket_time.packed() + (v.pending_bucket_proceeds.packed() + (v.current_rate_of_proceeds.packed() + v.proceeds.packed())), bytes@, q2);
                        }
                    }
                }
                return Err(e);
            },
        };
        let ghost q3: int = p as int;
        let x3 = match <TimePointSec as Packed>::read(bytes, &mut p) {
            Ok(x) => x,
            Err(e) => {
                proof {
                    assert forall|v: RexReturnPool| !prefix_at(#[trigger] v.packed(), bytes@, *old(pos) as int) by {
                        if prefix_at(v.packed(), bytes@, *old(pos) as int) {
                            lemma_prefix_concat(v.version.packed(), v.last_dist_time.packed() + (v.pending_bucket_time.packed() + (v.oldest_bucket_time.packed() + (v.pending_bucket_proceeds.packed() + (v.current_rate_of_proceeds.packed() + v.proceeds.packed())))), bytes@, q0);
                            <u64 as Packed>::lemma_unique(v.version, x0, bytes@, q0);
                            lemma_prefix_concat(v.last_dist_time.packed(), v.pending_bucket_time.packed() + (v.oldest_bucket_time.packed() + (v.pending_bucket_proceeds.packed() + (v.current_rate_of_proceeds.packed() + v.proceeds.packed()))), bytes@, q1);
                            <TimePointSec as Packed>::lemma_unique(v.last_dist_time, x1, bytes@, q1);
                            lemma_prefix_concat(v.pending_bucket_time.packed(), v.oldest_bucket_time.packed() + (v.pending_bucket_proceeds.packed() + (v.current_rate_of_proceeds.packed() + v.proceeds.packed())), bytes@, q2);
                            <TimePointSec as Packed>::lemma_unique(v.pending_bucket_time, x2, bytes@, q2);
                            lemma_prefix_concat(v.oldest_bucket_time.packed(), v.pending_bucket_proceeds.packed() + (v.current_rate_of_proceeds.packed() + v.proceeds.packed()), bytes@, q3);
                        }
                    }
                }
                return Err(e);
            },
        };
        let ghost q4: int = p as int;
        let x4 = match <i64 as Packed>::read(bytes, &mut p) {
            Ok(x) => x,
            Err(e) => {
                proof {
                    assert forall|v: RexReturnPool| !prefix_at(#[trigger] v.packed(), bytes@, *old(pos) as int) by {
                        if prefix_at(v.packed(), bytes@, *old(pos) as int) {
                            lemma_prefix_concat(v.version.packed(), v.last_dist_time.packed() + (v.pending_bucket_time.packed() + (v.oldest_bucket_time.packed() + (v.pending_bucket_proceeds.packed() + (v.current_rate_of_proceeds.packed() + v.proceeds.packed())))), bytes@, q0);
                            <u64 as Packed>::lemma_unique(v.version, x0, bytes@, q0);
                            lemma_prefix_concat(v.last_dist_time.packed(), v.pending_bucket_time.packed() + (v.oldest_bucket_time.packed() + (v.pending_bucket_proceeds.packed() + (v.current_rate_of_proceeds.packed() + v.proceeds.packed()))), bytes@, q1);
                            <TimePointSec as Packed>::lemma_unique(v.last_dist_time, x1, bytes@, q1);
                            lemma_prefix_concat(v.pending_bucket_time.packed(), v.oldest_bucket_time.packed() + (v.pending_bucket_proceeds.packed() + (v.current_rate_of_proceeds.packed() + v.proceeds.packed())), bytes@, q2);
                            <TimePointSec as Packed>::lemma_unique(v.pending_bucket_time, x2, bytes@, q2);
                            lemma_prefix_concat(v.oldest_bucket_time.packed(), v.pending_bucket_proceeds.packed() + (v.current_rate_of_proceeds.packed() + v.proceeds.packed()), bytes@, q3);
                            <TimePointSec as Packed>::lemma_unique(v.oldest_bucket_time, x3, bytes@, q3);
                            lemma_prefix_concat(v.pending_bucket_proceeds.packed(), v.current_rate_of_proceeds.packed() + v.proceeds.packed(), bytes@, q4);
                        }
                    }
                }
                return Err(e);
            },
        };
        let ghost q5: int = p as int;
        let x5 = match <i64 as Packed>::read(bytes, &mut p) {
            Ok(x) => x,
            Err(e) => {
                proof {
                    assert forall|v: RexReturnPool| !prefix_at(#[trigger] v.packed(), bytes@, *old(pos) as int) by {
                        if prefix_at(v.packed(), bytes@, *old(pos) as int) {
                            lemma_prefix_concat(v.version.packed(), v.last_dist_time.packed() + (v.pending_bucket_time.packed() + (v.oldest_bucket_time.packed() + (v.pending_bucket_proceeds.packed() + (v.current_rate_of_proceeds.packed() + v.proceeds.packed())))), bytes@, q0);
                            <u64 as Packed>::lemma_unique(v.version, x0, bytes@, q0);
                            lemma_prefix_concat(v.last_dist_time.packed(), v.pending_bucket_time.packed() + (v.oldest_bucket_time.packed() + (v.pending_bucket_proceeds.packed() + (v.current_rate_of_proceeds.packed() + v.proceeds.packed()))), bytes@, q1);
                            <TimePointSec as Packed>::lemma_unique(v.last_dist_time, x1, bytes@, q1);
                            lemma_prefix_concat(v.pending_bucket_time.packed(), v.oldest_bucket_time.packed() + (v.pending_bucket_proceeds.packed() + (v.current_rate_of_proceeds.packed() + v.proceeds.packed())), bytes@, q2);
                            <TimePointSec as Packed>::lemma_unique(v.pending_bucket_time, x2, bytes@, q2);
                            lemma_prefix_concat(v.oldest_bucket_time.packed(), v.pending_bucket_proceeds.packed() + (v.current_rate_of_proceeds.packed() + v.proceeds.packed()), bytes@, q3);
                            <TimePointSec as Packed>::lemma_unique(v.oldest_bucket_time, x3, bytes@, q3);
                            lemma_prefix_concat(v.pending_bucket_proceeds.packed(), v.current_rate_of_proceeds.packed() + v.proceeds.packed(), bytes@, q4);
                            <i64 as Packed>::lemma_unique(v.pending_bucket_proceeds, x4, bytes@, q4);
                            lemma_prefix_concat(v.current_rate_of_proceeds.packed(), v.proceeds.packed(), bytes@, q5);
                        }
                    }
                }
                return Err(e);
            },
        };
        let ghost q6: int = p as int;
        let x6 = match <i64 as Packed>::read(bytes, &mut p) {
            Ok(x) => x,
            Err(e) => {
                proof {
                    assert forall|v: RexReturnPool| !prefix_at(#[trigger] v.packed(), bytes@, *old(pos) as int) by {
                        if prefix_at(v.packed(), bytes@, *old(pos) as int) {
                            lemma_prefix_concat(v.version.packed(), v.last_dist_time.packed() + (v.pending_bucket_time.packed() + (v.oldest_bucket_time.packed() + (v.pending_bucket_proceeds.packed() + (v.current_rate_of_proceeds.packed() + v.proceeds.packed())))), bytes@, q0);
                            <u64 as Packed>::lemma_unique(v.version, x0, bytes@, q0);
                            lemma_prefix_concat(v.last_dist_time.packed(), v.pending_bucket_time.packed() + (v.oldest_bucket_time.packed() + (v.pending_bucket_proceeds.packed() + (v.current_rate_of_proceeds.packed() + v.proceeds.packed()))), bytes@, q1);
                            <TimePointSec as Packed>::lemma_unique(v.last_dist_time, x1, bytes@, q1);
                            lemma_prefix_concat(v.pending_bucket_time.packed(), v.oldest_bucket_time.packed() + (v.pending_bucket_proceeds.packed() + (v.current_rate_of_proceeds.packed() + v.proceeds.packed())), bytes@, q2);
                            <TimePointSec as Packed>::lemma_unique(v.pending_bucket_time, x2, bytes@, q2);
                            lemma_prefix_concat(v.oldest_bucket_time.packed(), v.pending_bucket_proceeds.packed() + (v.current_rate_of_proceeds.packed() + v.proceeds.packed()), bytes@, q3);
                            <TimePointSec as Packed>::lemma_unique(v.oldest_bucket_time, x3, bytes@, q3);
                            lemma_prefix_concat(v.pending_bucket_proceeds.packed(), v.current_rate_of_proceeds.packed() + v.proceeds.packed(), bytes@, q4);
                            <i64 as Packed>::lemma_unique(v.pending_bucket_proceeds, x4, bytes@, q4);
                            lemma_prefix_concat(v.current_rate_of_proceeds.packed(), v.proceeds.packed(), bytes@, q5);
                            <i64 as Packed>::lemma_unique(v.current_rate_of_proceeds, x5, bytes@, q5);
                        }
                    }
                }
                return Err(e);
            },
        };
        let v = RexReturnPool { version: x0, last_dist_time: x1, pending_bucket_time: x2, oldest_bucket_time: x3, pending_bucket_proceeds: x4, current_rate_of_proceeds: x5, proceeds: x6 };
        proof {
            lemma_prefix_concat(v.current_rate_of_proceeds.packed(), v.proceeds.packed(), bytes@, q5);
            lemma_prefix_concat(v.pending_bucket_proceeds.packed(), v.current_rate_of_proceeds.packed() + v.proceeds.packed(), bytes@, q4);
            lemma_prefix_concat(v.oldest_bucket_time.packed(), v.pending_bucket_proceeds.packed() + (v.current_rate_of_proceeds.packed() + v.proceeds.packed()), bytes@, q3);
            lemma_prefix_concat(v.pending_bucket_time.packed(), v.oldest_bucket_time.packed() + (v.pending_bucket_proceeds.packed() + (v.current_rate_of_proceeds.packed() + v.proceeds.packed())), bytes@, q2);
            lemma_prefix_concat(v.last_dist_time.packed(), v.pending_bucket_time.packed() + (v.oldest_bucket_time.packed() + (v.pending_bucket_proceeds.packed() + (v.current_rate_of_proceeds.packed() + v.proceeds.packed()))), bytes@, q1);
            lemma_prefix_concat(v.version.packed(), v.last_dist_time.packed() + (v.pending_bucket_time.packed() + (v.oldest_bucket_time.packed() + (v.pending_bucket_proceeds.packed() + (v.current_rate_of_proceeds.packed() + v.proceeds.packed())))), bytes@, q0);
        }
        *pos = p;
        Ok(v)
    }

    fn write(&self, bytes: &mut [u8], pos: &mut usize) -> (r: Result<(), WriteError>) {
        proof {
            assert(self.packed().len() <= 44);
        }
        let n = self.num_bytes();
        let len = bytes.len();
        if *pos > len || n > len - *pos {
            return Err(WriteError::NotEnoughSpace);
        }
        let mut p = *pos;
        let ghost start = *pos as int;
        let ghost buf0 = bytes@;
        let _ = self.version.write(bytes, &mut p);
        let _ = self.last_dist_time.write(bytes, &mut p);
        proof {
            lemma_written_concat(buf0, start, self.version.packed(), self.last_dist_time.packed());
        }
        let _ = self.pending_bucket_time.write(bytes, &mut p);
        proof {
            lemma_written_concat(buf0, start, self.version.packed() + self.last_dist_time.packed(), self.pending_bucket_time.packed());
        }
        let _ = self.oldest_bucket_time.write(bytes, &mut p);
        proof {
            lemma_written_concat(buf0, start, self.version.packed() + self.last_dist_time.packed() + self.pending_bucket_time.packed(), self.oldest_bucket_time.packed());
        }
        let _ = self.pending_bucket_proceeds.write(bytes, &mut p);
        proof {
            lemma_written_concat(buf0, start, self.version.packed() + self.last_dist_time.packed() + self.pending_bucket_time.packed() + self.oldest_bucket_time.packed(), self.pending_bucket_proceeds.packed());
        }
        let _ = self.current_rate_of_proceeds.write(bytes, &mut p);
        proof {
            lemma_written_concat(buf0, start, self.version.packed() + self.last_dist_time.packed() + self.pending_bucket_time.packed() + self.oldest_bucket_time.packed() + self.pending_bucket_proceeds.packed(), self.current_rate_of_proceeds.packed());
        }
        let _ = self.proceeds.write(bytes, &mut p);
        proof {
            lemma_written_concat(buf0, start, self.version.packed() + self.last_dist_time.packed() + self.pending_bucket_time.packed() + self.oldest_bucket_time.packed() + self.pending_bucket_proceeds.packed() + self.current_rate_of_proceeds.packed(), self.proceeds.packed());
        }
        proof {
            assert(self.version.packed() + self.last_dist_time.packed() + self.pending_bucket_time.packed() + self.oldest_bucket_time.packed() + self.pending_bucket_proceeds.packed() + self.current_rate_of_proceeds.packed() + self.proceeds.packed() =~= self.packed());
        }
        *pos = p;
        Ok(())
    }
}

impl Packed for RexFund {
    open spec fn packed(&self) -> Seq<u8> {
        self.version.packed() + (self.owner.packed() + self.balance.packed())
    }

    proof fn lemma_unique(a: Self, b: Self, bytes: Seq<u8>, pos: int) {
        let ghost mut q = pos;
        lemma_prefix_concat(a.version.packed(), a.owner.packed() + a.balance.packed(), bytes, q);
        lemma_prefix_concat(b.version.packed(), b.owner.packed() + b.balance.packed(), bytes, q);
        <u8 as Packed>::lemma_unique(a.version, b.version, bytes, q);
        q = q + a.version.packed().len();
        lemma_prefix_concat(a.owner.packed(), a.balance.packed(), bytes, q);
        lemma_prefix_concat(b.owner.packed(), b.balance.packed(), bytes, q);
        <Name as Packed>::lemma_unique(a.owner, b.owner, bytes, q);
        q = q + a.owner.packed().len();
        <Asset as Packed>::lemma_unique(a.balance, b.balance, bytes, q);
    }

    open spec fn same_value(&self, other: &Self) -> bool {
        &&& self.version.same_value(&other.version)
        &&& self.owner.same_value(&other.owner)
        &&& self.balance.same_value(&other.balance)
    }

    proof fn lemma_injective(a: Self, b: Self) {
        let bytes = a.packed();
        let pos: int = 0;
        assert(bytes.subrange(0, bytes.len() as int) =~= bytes);
        let ghost mut q = pos;
        lemma_prefix_concat(a.version.packed(), a.owner.packed() + a.balance.packed(), bytes, q);
        lemma_prefix_concat(b.version.packed(), b.owner.packed() + b.balance.packed(), bytes, q);
        <u8 as Packed>::lemma_unique(a.version, b.version, bytes, q);
        <u8 as Packed>::lemma_injective(a.version, b.version);
        q = q + a.version.packed().len();
        lemma_prefix_concat(a.owner.packed(), a.balance.packed(), bytes, q);
        lemma_prefix_concat(b.owner.packed(), b.balance.packed(), bytes, q);
        <Name as Packed>::lemma_unique(a.owner, b.owner, bytes, q);
        <Name as Packed>::lemma_injective(a.owner, b.owner);
        q = q + a.owner.packed().len();
        <Asset as Packed>::lemma_unique(a.balance, b.balance, bytes, q);
        <Asset as Packed>::lemma_injective(a.balance, b.balance);
    }

    fn num_bytes(&self) -> (n: usize) {
        self.version.num_bytes() + self.owner.num_bytes() + self.balance.num_bytes()
    }

    fn read(bytes: &[u8], pos: &mut usize) -> (r: Result<Self, ReadError>) {
        let mut p = *pos;
        let ghost q0: int = p as int;
        let x0 = match <u8 as Packed>::read(bytes, &mut p) {
            Ok(x) => x,
            Err(e) => {
                proof {
                    assert forall|v: RexFund| !prefix_at(#[trigger] v.packed(), bytes@, *old(pos) as int) by {
                        if prefix_at(v.packed(), bytes@, *old(pos) as int) {
                            lemma_prefix_concat(v.version.packed(), v.owner.packed() + v.balance.packed(), bytes@, q0);
                        }
                    }
                }
                return Err(e);
            },
        };
        let ghost q1: int = p as int;
        let x1 = match <Name as Packed>::read(bytes, &mut p) {
            Ok(x) => x,
            Err(e) => {
                proof {
                    assert forall|v: RexFund| !prefix_at(#[trigger] v.packed(), bytes@, *old(pos) as int) by {
                        if prefix_at(v.packed(), bytes@, *old(pos) as int) {
                            lemma_prefix_concat(v.version.packed(), v.owner.packed() + v.balance.packed(), bytes@, q0);
                            <u8 as Packed>::lemma_unique(v.version, x0, bytes@, q0);
                            lemma_prefix_concat(v.owner.packed(), v.balance.packed(), bytes@, q1);
                        }
                    }
                }
                return Err(e);
            },
        };
        let ghost q2: int = p as int;
        let x2 = match <Asset as Packed>::read(bytes, &mut p) {
            Ok(x) => x,
            Err(e) => {
                proof {
                    assert forall|v: RexFund| !prefix_at(#[trigger] v.packed(), bytes@, *old(pos) as int) by {
                        if prefix_at(v.packed(), bytes@, *old(pos) as int) {
                            lemma_prefix_concat(v.version.packed(), v.owner.packed() + v.balance.packed(), bytes@, q0);
                            <u8 as Packed>::lemma_unique(v.version, x0, bytes@, q0);
                            lemma_prefix_concat(v.owner.packed(), v.balance.packed(), bytes@, q1);
                            <Name as Packed>::lemma_unique(v.owner, x1, bytes@, q1);
                        }
                    }
                }
                return Err(e);
            },
        };
        let v = RexFund { version: x0, owner: x1, balance: x2 };
        proof {
            lemma_prefix_concat(v.owner.packed(), v.balance.packed(), bytes@, q1);
            lemma_prefix_concat(v.version.packed(), v.owner.packed() + v.balance.packed(), bytes@, q0);
        }
        *pos = p;
        Ok(v)
    }

    fn write(&self, bytes: &mut [u8], pos: &mut usize) -> (r: Result<(), WriteError>) {
        proof {
            assert(self.packed().len() <= 25);
        }
        let n = self.num_bytes();
        let len = bytes.len();
        if *pos > len || n > len - *pos {
            return Err(WriteError::NotEnoughSpace);
        }
        let mut p = *pos;
        let ghost start = *pos as int;
        let ghost buf0 = bytes@;
        let _ = self.version.write(bytes, &mut p);
        let _ = self.owner.write(bytes, &mut p);
        proof {
            lemma_written_concat(buf0, start, self.version.packed(), self.owner.packed());
        }
        let _ = self.balance.write(bytes, &mut p);
        proof {
            lemma_written_concat(buf0, start, self.version.packed() + self.owner.packed(), self.balance.packed());
        }
        proof {
            assert(self.version.packed() + self.owner.packed() + self.balance.packed() =~= self.packed());
        }
        *pos = p;
        Ok(())
    }
}

impl Packed for RexBalance {
    open spec fn packed(&self) -> Seq<u8> {
        self.version.packed() + (self.owner.packed() + (self.vote_stake.packed() + (self.rex_balance.packed() + self.matured_rex.packed())))
    }

    proof fn lemma_unique(a: Self, b: Self, bytes: Seq<u8>, pos: int) {
        let ghost mut q = pos;
        lemma_prefix_concat(a.version.packed(), a.owner.packed() + (a.vote_stake.packed() + (a.rex_balance.packed() + a.matured_rex.packed())), bytes, q);
        lemma_prefix_concat(b.version.packed(), b.owner.packed() + (b.vote_stake.packed() + (b.rex_balance.packed() + b.matured_rex.packed())), bytes, q);
        <u8 as Packed>::lemma_unique(a.version, b.version, bytes, q);
        q = q + a.version.packed().len();
        lemma_prefix_concat(a.owner.packed(), a.vote_stake.packed() + (a.rex_balance.packed() + a.matured_rex.packed()), bytes, q);
        lemma_prefix_concat(b.owner.packed(), b.vote_stake.packed() + (b.rex_balance.packed() + b.matured_rex.packed()), bytes, q);
        <Name as Packed>::lemma_unique(a.owner, b.owner, bytes, q);
        q = q + a.owner.packed().len();
        lemma_prefix_concat(a.vote_stake.packed(), a.rex_balance.packed() + a.matured_rex.packed(), bytes, q);
        lemma_prefix_concat(b.vote_stake.packed(), b.rex_balance.packed() + b.matured_rex.packed(), bytes, q);
        <Asset as Packed>::lemma_unique(a.vote_stake, b.vote_stake, bytes, q);
        q = q + a.vote_stake.packed().len();
        lemma_prefix_concat(a.rex_balance.packed(), a.matured_rex.packed(), bytes, q);
        lemma_prefix_concat(b.rex_balance.packed(), b.matured_rex.packed(), bytes, q);
        <Asset as Packed>::lemma_unique(a.rex_balance, b.rex_balance, bytes, q);
        q = q + a.rex_balance.packed().len();
        <i64 as Packed>::lemma_unique(a.matured_rex, b.matured_rex, bytes, q);
    }

    open spec fn same_value(&self, other: &Self) -> bool {
        &&& self.version.same_value(&other.version)
        &&& self.owner.same_value(&other.owner)
        &&& self.vote_stake.same_value(&other.vote_stake)
        &&& self.rex_balance.same_value(&other.rex_balance)
        &&& self.matured_rex.same_value(&other.matured_rex)
    }

    proof fn lemma_injective(a: Self, b: Self) {
        let bytes = a.packed();
        let pos: int = 0;
        assert(bytes.subrange(0, bytes.len() as int) =~= bytes);
        let ghost mut q = pos;
        lemma_prefix_concat(a.version.packed(), a.owner.packed() + (a.vote_stake.packed() + (a.rex_balance.packed() + a.matured_rex.packed())), bytes, q);
        lemma_prefix_concat(b.version.packed(), b.owner.packed() + (b.vote_stake.packed() + (b.rex_balance.packed() + b.matured_rex.packed())), bytes, q);
        <u8 as Packed>::lemma_unique(a.version, b.version, bytes, q);
        <u8 as Packed>::lemma_injective(a.version, b.version);
        q = q + a.version.packed().len();
        lemma_prefix_concat(a.owner.packed(), a.vote_stake.packed() + (a.rex_balance.packed() + a.matured_rex.packed()), bytes, q);
        lemma_prefix_concat(b.owner.packed(), b.vote_stake.packed() + (b.rex_balance.packed() + b.matured_rex.packed()), bytes, q);
        <Name as Packed>::lemma_unique(a.owner, b.owner, bytes, q);
        <Name as Packed>::lemma_injective(a.owner, b.owner);
        q = q + a.owner.packed().len();
        lemma_prefix_concat(a.vote_stake.packed(), a.rex_balance.packed() + a.matured_rex.packed(), bytes, q);
        lemma_prefix_concat(b.vote_stake.packed(), b.rex_balance.packed() + b.matured_rex.packed(), bytes, q);
        <Asset as Packed>::lemma_unique(a.vote_stake, b.vote_stake, bytes, q);
        <Asset as Packed>::lemma_injective(a.vote_stake, b.vote_stake);
        q = q + a.vote_stake.packed().len();
        lemma_prefix_concat(a.rex_balance.packed(), a.matured_rex.packed(), bytes, q);
        lemma_prefix_concat(b.rex_balance.packed(), b.matured_rex.packed(), bytes, q);
        <Asset as Packed>::lemma_unique(a.rex_balance, b.rex_balance, bytes, q);
        <Asset as Packed>::lemma_injective(a.rex_balance, b.rex_balance);
        q = q + a.rex_balance.packed().len();
        <i64 as Packed>::lemma_unique(a.matured_rex, b.matured_rex, bytes, q);
        <i64 as Packed>::lemma_injective(a.matured_rex, b.matured_rex);
    }

    fn num_bytes(&self) -> (n: usize) {
        self.version.num_bytes() + self.owner.num_bytes() + self.vote_stake.num_bytes() + self.rex_balance.num_bytes() + self.matured_rex.num_bytes()
    }

    fn read(bytes: &[u8], pos: &mut usize) -> (r: Result<Self, ReadError>) {
        let mut p = *pos;
        let ghost q0: int = p as int;
        let x0 = match <u8 as Packed>::read(bytes, &mut p) {
            Ok(x) => x,
            Err(e) => {
                proof {
                    assert forall|v: RexBalance| !prefix_at(#[trigger] v.packed(), bytes@, *old(pos) as int) by {
                        if prefix_at(v.packed(), bytes@, *old(pos) as int) {
                            lemma_prefix_concat(v.version.packed(), v.owner.packed() + (v.vote_stake.packed() + (v.rex_balance.packed() + v.matured_rex.packed())), bytes@, q0);
                        }
                    }
                }
                return Err(e);
            },
        };
        let ghost q1: int = p as int;
        let x1 = match <Name as Packed>::read(bytes, &mut p) {
            Ok(x) => x,
            Err(e) => {
                proof {
                    assert forall|v: RexBalance| !prefix_at(#[trigger] v.packed(), bytes@, *old(pos) as int) by {
                        if prefix_at(v.packed(), bytes@, *old(pos) as int) {
                            lemma_prefix_concat(v.version.packed(), v.owner.packed() + (v.vote_stake.packed() + (v.rex_balance.packed() + v.matured_rex.packed())), bytes@, q0);
                            <u8 as Packed>::lemma_unique(v.version, x0, bytes@, q0);
                            lemma_prefix_concat(v.owner.packed(), v.vote_stake.packed() + (v.rex_balance.packed() + v.matured_rex.packed()), bytes@, q1);
                        }
                    }
                }
                return Err(e);
            },
        };
        let ghost q2: int = p as int;
        let x2 = match <Asset as Packed>::read(bytes, &mut p) {
            Ok(x) => x,
            Err(e) => {
                proof {
                    assert forall|v: RexBalance| !prefix_at(#[trigger] v.packed(), bytes@, *old(pos) as int) by {
                        if prefix_at(v.packed(), bytes@, *old(pos) as int) {
                            lemma_prefix_concat(v.version.packed(), v.owner.packed() + (v.vote_stake.packed() + (v.rex_balance.packed() + v.matured_rex.packed())), bytes@, q0);
                            <u8 as Packed>::lemma_unique(v.version, x0, bytes@, q0);
                            lemma_prefix_concat(v.owner.packed(), v.vote_stake.packed() + (v.rex_balance.packed() + v.matured_rex.packed()), bytes@, q1);
                            <Name as Packed>::lemma_unique(v.owner, x1, bytes@, q1);
                            lemma_prefix_concat(v.vote_stake.packed(), v.rex_balance.packed() + v.matured_rex.packed(), bytes@, q2);
                        }
                    }
                }
                return Err(e);
            },
        };
        let ghost q3: int = p as int;
        let x3 = match <Asset as Packed>::read(bytes, &mut p) {
            Ok(x) => x,
            Err(e) => {
                proof {
                    assert forall|v: RexBalance| !prefix_at(#[trigger] v.packed(), bytes@, *old(pos) as int) by {
                        if prefix_at(v.packed(), bytes@, *old(pos) as int) {
                            lemma_prefix_concat(v.version.packed(), v.owner.packed() + (v.vote_stake.packed() + (v.rex_balance.packed() + v.matured_rex.packed())), bytes@, q0);
                            <u8 as Packed>::lemma_unique(v.version, x0, bytes@, q0);
                            lemma_prefix_concat(v.owner.packed(), v.vote_stake.packed() + (v.rex_balance.packed() + v.matured_rex.packed()), bytes@, q1);
                            <Name as Packed>::lemma_unique(v.owner, x1, bytes@, q1);
                            lemma_prefix_concat(v.vote_stake.packed(), v.rex_balance.packed() + v.matured_rex.packed(), bytes@, q2);
                            <Asset as Packed>::lemma_unique(v.vote_stake, x2, bytes@, q2);
                            lemma_prefix_concat(v.rex_balance.packed(), v.matured_rex.packed(), bytes@, q3);
                        }
                    }
                }
                return Err(e);
            },
        };
        let ghost q4: int = p as int;
        let x4 = match <i64 as Packed>::read(bytes, &mut p) {
            Ok(x) => x,
            Err(e) => {
                proof {
                    assert forall|v: RexBalance| !prefix_at(#[trigger] v.packed(), bytes@, *old(pos) as int) by {
                        if prefix_at(v.packed(), bytes@, *old(pos) as int) {
                            lemma_prefix_concat(v.version.packed(), v.owner.packed() + (v.vote_stake.packed() + (v.rex_balance.packed() + v.matured_rex.packed())), bytes@, q0);
                            <u8 as Packed>::lemma_unique(v.version, x0, bytes@, q0);
                            lemma_prefix_concat(v.owner.packed(), v.vote_stake.packed() + (v.rex_balance.packed() + v.matured_rex.packed()), bytes@, q1);
                            <Name as Packed>::lemma_unique(v.owner, x1, bytes@, q1);
                            lemma_prefix_concat(v.vote_stake.packed(), v.rex_balance.packed() + v.matured_rex.packed(), bytes@, q2);
                            <Asset as Packed>::lemma_unique(v.vote_stake, x2, bytes@, q2);
                            lemma_prefix_concat(v.rex_balance.packed(), v.matured_rex.packed(), bytes@, q3);
                            <Asset as Packed>::lemma_unique(v.rex_balance, x3, bytes@, q3);
                        }
                    }
                }
                return Err(e);
            },
        };
        let v = RexBalance { version: x0, owner: x1, vote_stake: x2, rex_balance: x3, matured_rex: x4 };
        proof {
            lemma_prefix_concat(v.rex_balance.packed(), v.matured_rex.packed(), bytes@, q3);
            lemma_prefix_concat(v.vote_stake.packed(), v.rex_balance.packed() + v.matured_rex.packed(), bytes@, q2);
            lemma_prefix_concat(v.owner.packed(), v.vote_stake.packed() + (v.rex_balance.packed() + v.matured_rex.packed()), bytes@, q1);
            lemma_prefix_concat(v.version.packed(), v.owner.packed() + (v.vote_stake.packed() + (v.rex_balance.packed() + v.matured_rex.packed())), bytes@, q0);
        }
        *pos = p;
        Ok(v)
    }

    fn write(&self, bytes: &mut [u8], pos: &mut usize) -> (r: Result<(), WriteError>) {
        proof {
            assert(self.packed().len() <= 49);
        }
        let n = self.num_bytes();
        let len = bytes.len();
        if *pos > len || n > len - *pos {
            return Err(WriteError::NotEnoughSpace);
        }
        let mut p = *pos;
        let ghost start = *pos as int;
        let ghost buf0 = bytes@;
        let _ = self.version.write(bytes, &mut p);
        let _ = self.owner.write(bytes, &mut p);
        proof {
            lemma_written_concat(buf0, start, self.version.packed(), self.owner.packed());
        }
        let _ = self.vote_stake.write(bytes, &mut p);
        proof {
            lemma_written_concat(buf0, start, self.version.packed() + self.owner.packed(), self.vote_stake.packed());
        }
        let _ = self.rex_balance.write(bytes, &mut p);
        proof {
            lemma_written_concat(buf0, start, self.version.packed() + self.owner.packed() + self.vote_stake.packed(), self.rex_balance.packed());
        }
        let _ = self.matured_rex.write(bytes, &mut p);
        proof {
            lemma_written_concat(buf0, start, self.version.packed() + self.owner.packed() + self.vote_stake.packed() + self.rex_balance.packed(), self.matured_rex.packed());
        }
        proof {
            assert(self.version.packed() + self.owner.packed() + self.vote_stake.packed() + self.rex_balance.packed() + self.matured_rex.packed() =~= self.packed());
        }
        *pos = p;
        Ok(())
    }
}

impl Packed for RexLoan {
    open spec fn packed(&self) -> Seq<u8> {
        self.version.packed() + (self.from.packed() + (self.receiver.packed() + (self.payment.packed() + (self.balance.packed() + (self.total_staked.packed() + (self.loan_num.packed() + self.expiration.packed()))))))
    }

    proof fn lemma_unique(a: Self, b: Self, bytes: Seq<u8>, pos: int) {
        let ghost mut q = pos;
        lemma_prefix_concat(a.version.packed(), a.from.packed() + (a.receiver.packed() + (a.payment.packed() + (a.balance.packed() + (a.total_staked.packed() + (a.loan_num.packed() + a.expiration.packed()))))), bytes, q);
        lemma_prefix_concat(b.version.packed(), b.from.packed() + (b.receiver.packed() + (b.payment.packed() + (b.balance.packed() + (b.total_staked.packed() + (b.loan_num.packed() + b.expiration.packed()))))), bytes, q);
        <u8 as Packed>::lemma_unique(a.version, b.version, bytes, q);
        q = q + a.version.packed().len();
        lemma_prefix_concat(a.from.packed(), a.receiver.packed() + (a.payment.packed() + (a.balance.packed() + (a.total_staked.packed() + (a.loan_num.packed() + a.expiration.packed())))), bytes, q);
        lemma_prefix_concat(b.from.packed(), b.receiver.packed() + (b.payment.packed() + (b.balance.packed() + (b.total_staked.packed() + (b.loan_num.packed() + b.expiration.packed())))), bytes, q);
        <Name as Packed>::lemma_unique(a.from, b.from, bytes, q);
        q = q + a.from.packed().len();
        lemma_prefix_concat(a.receiver.packed(), a.payment.packed() + (a.balance.packed() + (a.total_staked.packed() + (a.loan_num.packed() + a.expiration.packed()))), bytes, q);
        lemma_prefix_concat(b.receiver.packed(), b.payment.packed() + (b.balance.packed() + (b.total_staked.packed() + (b.loan_num.packed() + b.expiration.packed()))), bytes, q);
        <Name as Packed>::lemma_unique(a.receiver, b.receiver, bytes, q);
        q = q + a.receiver.packed().len();
        lemma_prefix_concat(a.payment.packed(), a.balance.packed() + (a.total_staked.packed() + (a.loan_num.packed() + a.expiration.packed())), bytes, q);
        lemma_prefix_concat(b.payment.packed(), b.balance.packed() + (b.total_staked.packed() + (b.loan_num.packed() + b.expiration.packed())), bytes, q);
        <Asset as Packed>::lemma_unique(a.payment, b.payment, bytes, q);
        q = q + a.payment.packed().len();
        lemma_prefix_concat(a.balance.packed(), a.total_staked.packed() + (a.loan_num.packed() + a.expiration.packed()), bytes, q);
        lemma_prefix_concat(b.balance.packed(), b.total_staked.packed() + (b.loan_num.packed() + b.expiration.packed()), bytes, q);
        <Asset as Packed>::lemma_unique(a.balance, b.balance, bytes, q);
        q = q + a.balance.packed().len();
        lemma_prefix_concat(a.total_staked.packed(), a.loan_num.packed() + a.expiration.packed(), bytes, q);
        lemma_prefix_concat(b.total_staked.packed(), b.loan_num.packed() + b.expiration.packed(), bytes, q);
        <Asset as Packed>::lemma_unique(a.total_staked, b.total_staked, bytes, q);
        q = q + a.total_staked.packed().len();
        lemma_prefix_concat(a.loan_num.packed(), a.expiration.packed(), bytes, q);
        lemma_prefix_concat(b.loan_num.packed(), b.expiration.packed(), bytes, q);
        <u64 as Packed>::lemma_unique(a.loan_num, b.loan_num, bytes, q);
        q = q + a.loan_num.packed().len();
        <TimePoint as Packed>::lemma_unique(a.expiration, b.expiration, bytes, q);
    }

    open spec fn same_value(&self, other: &Self) -> bool {
        &&& self.version.same_value(&other.version)
        &&& self.from.same_value(&other.from)
        &&& self.receiver.same_value(&other.receiver)
        &&& self.payment.same_value(&other.payment)
        &&& self.balance.same_value(&other.balance)
        &&& self.total_staked.same_value(&other.total_staked)
        &&& self.loan_num.same_value(&other.loan_num)
        &&& self.expiration.same_value(&other.expiration)
    }

    proof fn lemma_injective(a: Self, b: Self) {
        let bytes = a.packed();
        let pos: int = 0;
        assert(bytes.subrange(0, bytes.len() as int) =~= bytes);
        let ghost mut q = pos;
        lemma_prefix_concat(a.version.packed(), a.from.packed() + (a.receiver.packed() + (a.payment.packed() + (a.balance.packed() + (a.total_staked.packed() + (a.loan_num.packed() + a.expiration.packed()))))), bytes, q);
        lemma_prefix_concat(b.version.packed(), b.from.packed() + (b.receiver.packed() + (b.payment.packed() + (b.balance.packed() + (b.total_staked.packed() + (b.loan_num.packed() + b.expiration.packed()))))), bytes, q);
        <u8 as Packed>::lemma_unique(a.version, b.version, bytes, q);
        <u8 as Packed>::lemma_injective(a.version, b.version);
        q = q + a.version.packed().len();
        lemma_prefix_concat(a.from.packed(), a.receiver.packed() + (a.payment.packed() + (a.balance.packed() + (a.total_staked.packed() + (a.loan_num.packed() + a.expiration.packed())))), bytes, q);
        lemma_prefix_concat(b.from.packed(), b.receiver.packed() + (b.payment.packed() + (b.balance.packed() + (b.total_staked.packed() + (b.loan_num.packed() + b.expiration.packed())))), bytes, q);
        <Name as Packed>::lemma_unique(a.from, b.from, bytes, q);
        <Name as Packed>::lemma_injective(a.from, b.from);
        q = q + a.from.packed().len();
        lemma_prefix_concat(a.receiver.packed(), a.payment.packed() + (a.balance.packed() + (a.total_staked.packed() + (a.loan_num.packed() + a.expiration.packed()))), bytes, q);
        lemma_prefix_concat(b.receiver.packed(), b.payment.packed() + (b.balance.packed() + (b.total_staked.packed() + (b.loan_num.packed() + b.expiration.packed()))), bytes, q);
        <Name as Packed>::lemma_unique(a.receiver, b.receiver, bytes, q);
        <Name as Packed>::lemma_injective(a.receiver, b.receiver);
        q = q + a.receiver.packed().len();
        lemma_prefix_concat(a.payment.packed(), a.balance.packed() + (a.total_staked.packed() + (a.loan_num.packed() + a.expiration.packed())), bytes, q);
        lemma_prefix_concat(b.payment.packed(), b.balance.packed() + (b.total_staked.packed() + (b.loan_num.packed() + b.expiration.packed())), bytes, q);
        <Asset as Packed>::lemma_unique(a.payment, b.payment, bytes, q);
        <Asset as Packed>::lemma_injective(a.payment, b.payment);
        q = q + a.payment.packed().len();
        lemma_prefix_concat(a.balance.packed(), a.total_staked.packed() + (a.loan_num.packed() + a.expiration.packed()), bytes, q);
        lemma_prefix_concat(b.balance.packed(), b.total_staked.packed() + (b.loan_num.packed() + b.expiration.packed()), bytes, q);
        <Asset as Packed>::lemma_unique(a.balance, b.balance, bytes, q);
        <Asset as Packed>::lemma_injective(a.balance, b.balance);
        q = q + a.balance.packed().len();
        lemma_prefix_concat(a.total_staked.packed(), a.loan_num.packed() + a.expiration.packed(), bytes, q);
        lemma_prefix_concat(b.total_staked.packed(), b.loan_num.packed() + b.expiration.packed(), bytes, q);
        <Asset as Packed>::lemma_unique(a.total_staked, b.total_staked, bytes, q);
        <Asset as Packed>::lemma_injective(a.total_staked, b.total_staked);
        q = q + a.total_staked.packed().len();
        lemma_prefix_concat(a.loan_num.packed(), a.expiration.packed(), bytes, q);
        lemma_prefix_concat(b.loan_num.packed(), b.expiration.packed(), bytes, q);
        <u64 as Packed>::lemma_unique(a.loan_num, b.loan_num, bytes, q);
        <u64 as Packed>::lemma_injective(a.loan_num, b.loan_num);
        q = q + a.loan_num.packed().len();
        <TimePoint as Packed>::lemma_unique(a.expiration, b.expiration, bytes, q);
        <TimePoint as Packed>::lemma_injective(a.expiration, b.expiration);
    }

    fn num_bytes(&self) -> (n: usize) {
        self.version.num_bytes() + self.from.num_bytes() + self.receiver.num_bytes() + self.payment.num_bytes() + self.balance.num_bytes() + self.total_staked.num_bytes() + self.loan_num.num_bytes() + self.expiration.num_bytes()
    }

    fn read(bytes: &[u8], pos: &mut usize) -> (r: Result<Self, ReadError>) {
        let mut p = *pos;
        let ghost q0: int = p as int;
        let x0 = match <u8 as Packed>::read(bytes, &mut p) {
            Ok(x) => x,
            Err(e) => {
                proof {
                    assert forall|v: RexLoan| !prefix_at(#[trigger] v.packed(), bytes@, *old(pos) as int) by {
                        if prefix_at(v.packed(), bytes@, *old(pos) as int) {
                            lemma_prefix_concat(v.version.packed(), v.from.packed() + (v.receiver.packed() + (v.payment.packed() + (v.balance.packed() + (v.total_staked.packed() + (v.loan_num.packed() + v.expiration.packed()))))), bytes@, q0);
                        }
                    }
                }
                return Err(e);
            },
        };
        let ghost q1: int = p as int;
        let x1 = match <Name as Packed>::read(bytes, &mut p) {
            Ok(x) => x,
            Err(e) => {
                proof {
                    assert forall|v: RexLoan| !prefix_at(#[trigger] v.packed(), bytes@, *old(pos) as int) by {
                        if prefix_at(v.packed(), bytes@, *old(pos) as int) {
                            lemma_prefix_concat(v.version.packed(), v.from.packed() + (v.receiver.packed() + (v.payment.packed() + (v.balance.packed() + (v.total_staked.packed() + (v.loan_num.packed() + v.expiration.packed()))))), bytes@, q0);
                            <u8 as Packed>::lemma_unique(v.version, x0, bytes@, q0);
                            lemma_prefix_concat(v.from.packed(), v.receiver.packed() + (v.payment.packed() + (v.balance.packed() + (v.total_staked.packed() + (v.loan_num.packed() + v.expiration.packed())))), bytes@, q1);
                        }
                    }
                }
                return Err(e);
            },
        };
        let ghost q2: int = p as int;
        let x2 = match <Name as Packed>::read(bytes, &mut p) {
            Ok(x) => x,
            Err(e) => {
                proof {
                    assert forall|v: RexLoan| !prefix_at(#[trigger] v.packed(), bytes@, *old(pos) as int) by {
                        if prefix_at(v.packed(), bytes@, *old(pos) as int) {
                            lemma_prefix_concat(v.version.packed(), v.from.packed() + (v.receiver.packed() + (v.payment.packed() + (v.balance.packed() + (v.total_staked.packed() + (v.loan_num.packed() + v.expiration.packed()))))), bytes@, q0);
                            <u8 as Packed>::lemma_unique(v.version, x0, bytes@, q0);
                            lemma_prefix_concat(v.from.packed(), v.receiver.packed() + (v.payment.packed() + (v.balance.packed() + (v.total_staked.packed() + (v.loan_num.packed() + v.expiration.packed())))), bytes@, q1);
                            <Name as Packed>::lemma_unique(v.from, x1, bytes@, q1);
                            lemma_prefix_concat(v.receiver.packed(), v.payment.packed() + (v.balance.packed() + (v.total_staked.packed() + (v.loan_num.packed() + v.expiration.packed()))), bytes@, q2);
                        }
                    }
                }
                return Err(e);
            },
        };
        let ghost q3: int = p as int;
        let x3 = match <Asset as Packed>::read(bytes, &mut p) {
            Ok(x) => x,
            Err(e) => {
                proof {
                    assert forall|v: RexLoan| !prefix_at(#[trigger] v.packed(), bytes@, *old(pos) as int) by {
                        if prefix_at(v.packed(), bytes@, *old(pos) as int) {
                            lemma_prefix_concat(v.version.packed(), v.from.packed() + (v.receiver.packed() + (v.payment.packed() + (v.balance.packed() + (v.total_staked.packed() + (v.loan_num.packed() + v.expiration.packed()))))), bytes@, q0);
                            <u8 as Packed>::lemma_unique(v.version, x0, bytes@, q0);
                            lemma_prefix_concat(v.from.packed(), v.receiver.packed() + (v.payment.packed() + (v.balance.packed() + (v.total_staked.packed() + (v.loan_num.packed() + v.expiration.packed())))), bytes@, q1);
                            <Name as Packed>::lemma_unique(v.from, x1, bytes@, q1);
                            lemma_prefix_concat(v.receiver.packed(), v.payment.packed() + (v.balance.packed() + (v.total_staked.packed() + (v.loan_num.packed() + v.expiration.packed()))), bytes@, q2);
                            <Name as Packed>::lemma_unique(v.receiver, x2, bytes@, q2);
                            lemma_prefix_concat(v.payment.packed(), v.balance.packed() + (v.total_staked.packed() + (v.loan_num.packed() + v.expiration.packed())), bytes@, q3);
                        }
                    }
                }
                return Err(e);
            },
        };
        let ghost q4: int = p as int;
        let x4 = match <Asset as Packed>::read(bytes, &mut p) {
            Ok(x) => x,
            Err(e) => {
                proof {
                    assert forall|v: RexLoan| !prefix_at(#[trigger] v.packed(), bytes@, *old(pos) as int) by {
                        if prefix_at(v.packed(), bytes@, *old(pos) as int) {
                            lemma_prefix_concat(v.version.packed(), v.from.packed() + (v.receiver.packed() + (v.payment.packed() + (v.balance.packed() + (v.total_staked.packed() + (v.loan_num.packed() + v.expiration.packed()))))), bytes@, q0);
                            <u8 as Packed>::lemma_unique(v.version, x0, bytes@, q0);
                            lemma_prefix_concat(v.from.packed(), v.receiver.packed() + (v.payment.packed() + (v.balance.packed() + (v.total_staked.packed() + (v.loan_num.packed() + v.expiration.packed())))), bytes@, q1);
                            <Name as Packed>::lemma_unique(v.from, x1, bytes@, q1);
                            lemma_prefix_concat(v.receiver.packed(), v.payment.packed() + (v.balance.packed() + (v.total_staked.packed() + (v.loan_num.packed() + v.expiration.packed()))), bytes@, q2);
                            <Name as Packed>::lemma_unique(v.receiver, x2, bytes@, q2);
                            lemma_prefix_concat(v.payment.packed(), v.balance.packed() + (v.total_staked.packed() + (v.loan_num.packed() + v.expiration.packed())), bytes@, q3);
                            <Asset as Packed>::lemma_unique(v.payment, x3, bytes@, q3);
                            lemma_prefix_concat(v.balance.packed(), v.total_staked.packed() + (v.loan_num.packed() + v.expiration.packed()), bytes@, q4);
                        }
                    }
                }
                return Err(e);
            },
        };
        let ghost q5: int = p as int;
        let x5 = match <Asset as Packed>::read(bytes, &mut p) {
            Ok(x) => x,
            Err(e) => {
                proof {
                    assert forall|v: RexLoan| !prefix_at(#[trigger] v.packed(), bytes@, *old(pos) as int) by {
                        if prefix_at(v.packed(), bytes@, *old(pos) as int) {
                            lemma_prefix_concat(v.version.packed(), v.from.packed() + (v.receiver.packed() + (v.payment.packed() + (v.balance.packed() + (v.total_staked.packed() + (v.loan_num.packed() + v.expiration.packed()))))), bytes@, q0);
                            <u8 as Packed>::lemma_unique(v.version, x0, bytes@, q0);
                            lemma_prefix_concat(v.from.packed(), v.receiver.packed() + (v.payment.packed() + (v.balance.packed() + (v.total_staked.packed() + (v.loan_num.packed() + v.expiration.packed())))), bytes@, q1);
                            <Name as Packed>::lemma_unique(v.from, x1, bytes@, q1);
                            lemma_prefix_concat(v.receiver.packed(), v.payment.packed() + (v.balance.packed() + (v.total_staked.packed() + (v.loan_num.packed() + v.expiration.packed()))), bytes@, q2);
                            <Name as Packed>::lemma_unique(v.receiver, x2, bytes@, q2);
                            lemma_prefix_concat(v.payment.packed(), v.balance.packed() + (v.total_staked.packed() + (v.loan_num.packed() + v.expiration.packed())), bytes@, q3);
                            <Asset as Packed>::lemma_unique(v.payment, x3, bytes@, q3);
                            lemma_prefix_concat(v.balance.packed(), v.total_staked.packed() + (v.loan_num.packed() + v.expiration.packed()), bytes@, q4);
                            <Asset as Packed>::lemma_unique(v.balance, x4, bytes@, q4);
                            lemma_prefix_concat(v.total_staked.packed(), v.loan_num.packed() + v.expiration.packed(), bytes@, q5);
                        }
                    }
                }
                return Err(e);
            },
        };
        let ghost q6: int = p as int;
        let x6 = match <u64 as Packed>::read(bytes, &mut p) {
            Ok(x) => x,
            Err(e) => {
                proof {
                    assert forall|v: RexLoan| !prefix_at(#[trigger] v.packed(), bytes@, *old(pos) as int) by {
                        if prefix_at(v.packed(), bytes@, *old(pos) as int) {
                            lemma_prefix_concat(v.version.packed(), v.from.packed() + (v.receiver.packed() + (v.payment.packed() + (v.balance.packed() + (v.total_staked.packed() + (v.loan_num.packed() + v.expiration.packed()))))), bytes@, q0);
                            <u8 as Packed>::lemma_unique(v.version, x0, bytes@, q0);
                            lemma_prefix_concat(v.from.packed(), v.receiver.packed() + (v.payment.packed() + (v.balance.packed() + (v.total_staked.packed() + (v.loan_num.packed() + v.expiration.packed())))), bytes@, q1);
                            <Name as Packed>::lemma_unique(v.from, x1, bytes@, q1);
                            lemma_prefix_concat(v.receiver.packed(), v.payment.packed() + (v.balance.packed() + (v.total_staked.packed() + (v.loan_num.packed() + v.expiration.packed()))), bytes@, q2);
                            <Name as Packed>::lemma_unique(v.receiver, x2, bytes@, q2);
                            lemma_prefix_concat(v.payment.packed(), v.balance.packed() + (v.total_staked.packed() + (v.loan_num.packed() + v.expiration.packed())), bytes@, q3);
                            <Asset as Packed>::lemma_unique(v.payment, x3, bytes@, q3);
                            lemma_prefix_concat(v.balance.packed(), v.total_staked.packed() + (v.loan_num.packed() + v.expiration.packed()), bytes@, q4);
                            <Asset as Packed>::lemma_unique(v.balance, x4, bytes@, q4);
                            lemma_prefix_concat(v.total_staked.packed(), v.loan_num.packed() + v.expiration.packed(), bytes@, q5);
                            <Asset as Packed>::lemma_unique(v.total_staked, x5, bytes@, q5);
                            lemma_prefix_concat(v.loan_num.packed(), v.expiration.packed(), bytes@, q6);
                        }
                    }
                }
                return Err(e);
            },
        };
        let ghost q7: int = p as int;
        let x7 = match <TimePoint as Packed>::read(bytes, &mut p) {
            Ok(x) => x,
            Err(e) => {
                proof {
                    assert forall|v: RexLoan| !prefix_at(#[trigger] v.packed(), bytes@, *old(pos) as int) by {
                        if prefix_at(v.packed(), bytes@, *old(pos) as int) {
                            lemma_prefix_concat(v.version.packed(), v.from.packed() + (v.receiver.packed() + (v.payment.packed() + (v.balance.packed() + (v.total_staked.packed() + (v.loan_num.packed() + v.expiration.packed()))))), bytes@, q0);
                            <u8 as Packed>::lemma_unique(v.version, x0, bytes@, q0);
                            lemma_prefix_concat(v.from.packed(), v.receiver.packed() + (v.payment.packed() + (v.balance.packed() + (v.total_staked.packed() + (v.loan_num.packed() + v.expiration.packed())))), bytes@, q1);
                            <Name as Packed>::lemma_unique(v.from, x1, bytes@, q1);
                            lemma_prefix_concat(v.receiver.packed(), v.payment.packed() + (v.balance.packed() + (v.total_staked.packed() + (v.loan_num.packed() + v.expiration.packed()))), bytes@, q2);
                            <Name as Packed>::lemma_unique(v.receiver, x2, bytes@, q2);
                            lemma_prefix_concat(v.payment.packed(), v.balance.packed() + (v.total_staked.packed() + (v.loan_num.packed() + v.expiration.packed())), bytes@, q3);
                            <Asset as Packed>::lemma_unique(v.payment, x3, bytes@, q3);
                            lemma_prefix_concat(v.balance.packed(), v.total_staked.packed() + (v.loan_num.packed() + v.expiration.packed()), bytes@, q4);
                            <Asset as Packed>::lemma_unique(v.balance, x4, bytes@, q4);
                            lemma_prefix_concat(v.total_staked.packed(), v.loan_num.packed() + v.expiration.packed(), bytes@, q5);
                            <Asset as Packed>::lemma_unique(v.total_staked, x5, bytes@, q5);
                            lemma_prefix_concat(v.loan_num.packed(), v.expiration.packed(), bytes@, q6);
                            <u64 as Packed>::lemma_unique(v.loan_num, x6, bytes@, q6);
                        }
                    }
                }
                return Err(e);
            },
        };
        let v = RexLoan { version: x0, from: x1, receiver: x2, payment: x3, balance: x4, total_staked: x5, loan_num: x6, expiration: x7 };
        proof {
            lemma_prefix_concat(v.loan_num.packed(), v.expiration.packed(), bytes@, q6);
            lemma_prefix_concat(v.total_staked.packed(), v.loan_num.packed() + v.expiration.packed(), bytes@, q5);
            lemma_prefix_concat(v.balance.packed(), v.total_staked.packed() + (v.loan_num.packed() + v.expiration.packed()), bytes@, q4);
            lemma_prefix_concat(v.payment.packed(), v.balance.packed() + (v.total_staked.packed() + (v.loan_num.packed() + v.expiration.packed())), bytes@, q3);
            lemma_prefix_concat(v.receiver.packed(), v.payment.packed() + (v.balance.packed() + (v.total_staked.packed() + (v.loan_num.packed() + v.expiration.packed()))), bytes@, q2);
            lemma_prefix_concat(v.from.packed(), v.receiver.packed() + (v.payment.packed() + (v.balance.packed() + (v.total_staked.packed() + (v.loan_num.packed() + v.expiration.packed())))), bytes@, q1);
            lemma_prefix_concat(v.version.packed(), v.from.packed() + (v.receiver.packed() + (v.payment.packed() + (v.balance.packed() + (v.total_staked.packed() + (v.loan_num.packed() + v.expiration.packed()))))), bytes@, q0);
        }
        *pos = p;
        Ok(v)
    }

    fn write(&self, bytes: &mut [u8], pos: &mut usize) -> (r: Result<(), WriteError>) {
        proof {
            assert(self.packed().len() <= 81);
        }
        let n = self.num_bytes();
        let len = bytes.len();
        if *pos > len || n > len - *pos {
            return Err(WriteError::NotEnoughSpace);
        }
        let mut p = *pos;
        let ghost start = *pos as int;
        let ghost buf0 = bytes@;
        let _ = self.version.write(bytes, &mut p);
        let _ = self.from.write(bytes, &mut p);
        proof {
            lemma_written_concat(buf0, start, self.version.packed(), self.from.packed());
        }
        let _ = self.receiver.write(bytes, &mut p);
        proof {
            lemma_written_concat(buf0, start, self.version.packed() + self.from.packed(), self.receiver.packed());
        }
        let _ = self.payment.write(bytes, &mut p);
        proof {
            lemma_written_concat(buf0, start, self.version.packed() + self.from.packed() + self.receiver.packed(), self.payment.packed());
        }
        let _ = self.balance.write(bytes, &mut p);
        proof {
            lemma_written_concat(buf0, start, self.version.packed() + self.from.packed() + self.receiver.packed() + self.payment.packed(), self.balance.packed());
        }
        let _ = self.total_staked.write(bytes, &mut p);
        proof {
            lemma_written_concat(buf0, start, self.version.packed() + self.from.packed() + self.receiver.packed() + self.payment.packed() + self.balance.packed(), self.total_staked.packed());
        }
        let _ = self.loan_num.write(bytes, &mut p);
        proof {
            lemma_written_concat(buf0, start, self.version.packed() + self.from.packed() + self.receiver.packed() + self.payment.packed() + self.balance.packed() + self.total_staked.packed(), self.loan_num.packed());
        }
        let _ = self.expiration.write(bytes, &mut p);
        proof {
            lemma_written_concat(buf0, start, self.version.packed() + self.from.packed() + self.receiver.packed() + self.payment.packed() + self.balance.packed() + self.total_staked.packed() + self.loan_num.packed(), self.expiration.packed());
        }
        proof {
            assert(self.version.packed() + self.from.packed() + self.receiver.packed() + self.payment.packed() + self.balance.packed() + self.total_staked.packed() + self.loan_num.packed() + self.expiration.packed() =~= self.packed());
        }
        *pos = p;
        Ok(())
    }
}

impl Packed for RexOrder {
    open spec fn packed(&self) -> Seq<u8> {
        self.version.packed() + (self.owner.packed() + (self.rex_requested.packed() + (self.proceeds.packed() + (self.stake_change.packed() + (self.order_time.packed() + self.is_open.packed())))))
    }

    proof fn lemma_unique(a: Self, b: Self, bytes: Seq<u8>, pos: int) {
        let ghost mut q = pos;
        lemma_prefix_concat(a.version.packed(), a.owner.packed() + (a.rex_requested.packed() + (a.proceeds.packed() + (a.stake_change.packed() + (a.order_time.packed() + a.is_open.packed())))), bytes, q);
        lemma_prefix_concat(b.version.packed(), b.owner.packed() + (b.rex_requested.packed() + (b.proceeds.packed() + (b.stake_change.packed() + (b.order_time.packed() + b.is_open.packed())))), bytes, q);
        <u8 as Packed>::lemma_unique(a.version, b.version, bytes, q);
        q = q + a.version.packed().len();
        lemma_prefix_concat(a.owner.packed(), a.rex_requested.packed() + (a.proceeds.packed() + (a.stake_change.packed() + (a.order_time.packed() + a.is_open.packed()))), bytes, q);
        lemma_prefix_concat(b.owner.packed(), b.rex_requested.packed() + (b.proceeds.packed() + (b.stake_change.packed() + (b.order_time.packed() + b.is_open.packed()))), bytes, q);
        <Name as Packed>::lemma_unique(a.owner, b.owner, bytes, q);
        q = q + a.owner.packed().len();
        lemma_prefix_concat(a.rex_requested.packed(), a.proceeds.packed() + (a.stake_change.packed() + (a.order_time.packed() + a.is_open.packed())), bytes, q);
        lemma_prefix_concat(b.rex_requested.packed(), b.proceeds.packed() + (b.stake_change.packed() + (b.order_time.packed() + b.is_open.packed())), bytes, q);
        <Asset as Packed>::lemma_unique(a.rex_requested, b.rex_requested, bytes, q);
        q = q + a.rex_requested.packed().len();
        lemma_prefix_concat(a.proceeds.packed(), a.stake_change.packed() + (a.order_time.packed() + a.is_open.packed()), bytes, q);
        lemma_prefix_concat(b.proceeds.packed(), b.stake_change.packed() + (b.order_time.packed() + b.is_open.packed()), bytes, q);
        <Asset as Packed>::lemma_unique(a.proceeds, b.proceeds, bytes, q);
        q = q + a.proceeds.packed().len();
        lemma_prefix_concat(a.stake_change.packed(), a.order_time.packed() + a.is_open.packed(), bytes, q);
        lemma_prefix_concat(b.stake_change.packed(), b.order_time.packed() + b.is_open.packed(), bytes, q);
        <Asset as Packed>::lemma_unique(a.stake_change, b.stake_change, bytes, q);
        q = q + a.stake_change.packed().len();
        lemma_prefix_concat(a.order_time.packed(), a.is_open.packed(), bytes, q);
        lemma_prefix_concat(b.order_time.packed(), b.is_open.packed(), bytes, q);
        <TimePoint as Packed>::lemma_unique(a.order_time, b.order_time, bytes, q);
        q = q + a.order_time.packed().len();
        <bool as Packed>::lemma_unique(a.is_open, b.is_open, bytes, q);
    }

    open spec fn same_value(&self, other: &Self) -> bool {
        &&& self.version.same_value(&other.version)
        &&& self.owner.same_value(&other.owner)
        &&& self.rex_requested.same_value(&other.rex_requested)
        &&& self.proceeds.same_value(&other.proceeds)
        &&& self.stake_change.same_value(&other.stake_change)
        &&& self.order_time.same_value(&other.order_time)
        &&& self.is_open.same_value(&other.is_open)
    }

    proof fn lemma_injective(a: Self, b: Self) {
        let bytes = a.packed();
        let pos: int = 0;
        assert(bytes.subrange(0, bytes.len() as int) =~= bytes);
        let ghost mut q = pos;
        lemma_prefix_concat(a.version.packed(), a.owner.packed() + (a.rex_requested.packed() + (a.proceeds.packed() + (a.stake_change.packed() + (a.order_time.packed() + a.is_open.packed())))), bytes, q);
        lemma_prefix_concat(b.version.packed(), b.owner.packed() + (b.rex_requested.packed() + (b.proceeds.packed() + (b.stake_change.packed() + (b.order_time.packed() + b.is_open.packed())))), bytes, q);
        <u8 as Packed>::lemma_unique(a.version, b.version, bytes, q);
        <u8 as Packed>::lemma_injective(a.version, b.version);
        q = q + a.version.packed().len();
        lemma_prefix_concat(a.owner.packed(), a.rex_requested.packed() + (a.proceeds.packed() + (a.stake_change.packed() + (a.order_time.packed() + a.is_open.packed()))), bytes, q);
        lemma_prefix_concat(b.owner.packed(), b.rex_requested.packed() + (b.proceeds.packed() + (b.stake_change.packed() + (b.order_time.packed() + b.is_open.packed()))), bytes, q);
        <Name as Packed>::lemma_unique(a.owner, b.owner, bytes, q);
        <Name as Packed>::lemma_injective(a.owner, b.owner);
        q = q + a.owner.packed().len();
        lemma_prefix_concat(a.rex_requested.packed(), a.proceeds.packed() + (a.stake_change.packed() + (a.order_time.packed() + a.is_open.packed())), bytes, q);
        lemma_prefix_concat(b.rex_requested.packed(), b.proceeds.packed() + (b.stake_change.packed() + (b.order_time.packed() + b.is_open.packed())), bytes, q);
        <Asset as Packed>::lemma_unique(a.rex_requested, b.rex_requested, bytes, q);
        <Asset as Packed>::lemma_injective(a.rex_requested, b.rex_requested);
        q = q + a.rex_requested.packed().len();
        lemma_prefix_concat(a.proceeds.packed(), a.stake_change.packed() + (a.order_time.packed() + a.is_open.packed()), bytes, q);
        lemma_prefix_concat(b.proceeds.packed(), b.stake_change.packed() + (b.order_time.packed() + b.is_open.packed()), bytes, q);
        <Asset as Packed>::lemma_unique(a.proceeds, b.proceeds, bytes, q);
        <Asset as Packed>::lemma_injective(a.proceeds, b.proceeds);
        q = q + a.proceeds.packed().len();
        lemma_prefix_concat(a.stake_change.packed(), a.order_time.packed() + a.is_open.packed(), bytes, q);
        lemma_prefix_concat(b.stake_change.packed(), b.order_time.packed() + b.is_open.packed(), bytes, q);
        <Asset as Packed>::lemma_unique(a.stake_change, b.stake_change, bytes, q);
        <Asset as Packed>::lemma_injective(a.stake_change, b.stake_change);
        q = q + a.stake_change.packed().len();
        lemma_prefix_concat(a.order_time.packed(), a.is_open.packed(), bytes, q);
        lemma_prefix_concat(b.order_time.packed(), b.is_open.packed(), bytes, q);
        <TimePoint as Packed>::lemma_unique(a.order_time, b.order_time, bytes, q);
        <TimePoint as Packed>::lemma_injective(a.order_time, b.order_time);
        q = q + a.order_time.packed().len();
        <bool as Packed>::lemma_unique(a.is_open, b.is_open, bytes, q);
        <bool as Packed>::lemma_injective(a.is_open, b.is_open);
    }

    fn num_bytes(&self) -> (n: usize) {
        self.version.num_bytes() + self.owner.num_bytes() + self.rex_requested.num_bytes() + self.proceeds.num_bytes() + self.stake_change.num_bytes() + self.order_time.num_bytes() + self.is_open.num_bytes()
    }

    fn read(bytes: &[u8], pos: &mut usize) -> (r: Result<Self, ReadError>) {
        let mut p = *pos;
        let ghost q0: int = p as int;
        let x0 = match <u8 as Packed>::read(bytes, &mut p) {
            Ok(x) => x,
            Err(e) => {
                proof {
                    assert forall|v: RexOrder| !prefix_at(#[trigger] v.packed(), bytes@, *old(pos) as int) by {
                        if prefix_at(v.packed(), bytes@, *old(pos) as int) {
                            lemma_prefix_concat(v.version.packed(), v.owner.packed() + (v.rex_requested.packed() + (v.proceeds.packed() + (v.stake_change.packed() + (v.order_time.packed() + v.is_open.packed())))), bytes@, q0);
                        }
                    }
                }
                return Err(e);
            },
        };
        let ghost q1: int = p as int;
        let x1 = match <Name as Packed>::read(bytes, &mut p) {
            Ok(x) => x,
            Err(e) => {
                proof {
                    assert forall|v: RexOrder| !prefix_at(#[trigger] v.packed(), bytes@, *old(pos) as int) by {
                        if prefix_at(v.packed(), bytes@, *old(pos) as int) {
                            lemma_prefix_concat(v.version.packed(), v.owner.packed() + (v.rex_requested.packed() + (v.proceeds.packed() + (v.stake_change.packed() + (v.order_time.packed() + v.is_open.packed())))), bytes@, q0);
                            <u8 as Packed>::lemma_unique(v.version, x0, bytes@, q0);
                            lemma_prefix_concat(v.owner.packed(), v.rex_requested.packed() + (v.proceeds.packed() + (v.stake_change.packed() + (v.order_time.packed() + v.is_open.packed()))), bytes@, q1);
                        }
                    }
                }
                return Err(e);
            },
        };
        let ghost q2: int = p as int;
        let x2 = match <Asset as Packed>::read(bytes, &mut p) {
            Ok(x) => x,
            Err(e) => {
                proof {
                    assert forall|v: RexOrder| !prefix_at(#[trigger] v.packed(), bytes@, *old(pos) as int) by {
                        if prefix_at(v.packed(), bytes@, *old(pos) as int) {
                            lemma_prefix_concat(v.version.packed(), v.owner.packed() + (v.rex_requested.packed() + (v.proceeds.packed() + (v.stake_change.packed() + (v.order_time.packed() + v.is_open.packed())))), bytes@, q0);
                            <u8 as Packed>::lemma_unique(v.version, x0, bytes@, q0);
                            lemma_prefix_concat(v.owner.packed(), v.rex_requested.packed() + (v.proceeds.packed() + (v.stake_change.packed() + (v.order_time.packed() + v.is_open.packed()))), bytes@, q1);
                            <Name as Packed>::lemma_unique(v.owner, x1, bytes@, q1);
                            lemma_prefix_concat(v.rex_requested.packed(), v.proceeds.packed() + (v.stake_change.packed() + (v.order_time.packed() + v.is_open.packed())), bytes@, q2);
                        }
                    }
                }
                return Err(e);
            },
        };
        let ghost q3: int = p as int;
        let x3 = match <Asset as Packed>::read(bytes, &mut p) {
            Ok(x) => x,
            Err(e) => {
                proof {
                    assert forall|v: RexOrder| !prefix_at(#[trigger] v.packed(), bytes@, *old(pos) as int) by {
                        if prefix_at(v.packed(), bytes@, *old(pos) as int) {
                            lemma_prefix_concat(v.version.packed(), v.owner.packed() + (v.rex_requested.packed() + (v.proceeds.packed() + (v.stake_change.packed() + (v.order_time.packed() + v.is_open.packed())))), bytes@, q0);
                            <u8 as Packed>::lemma_unique(v.version, x0, bytes@, q0);
                            lemma_prefix_concat(v.owner.packed(), v.rex_requested.packed() + (v.proceeds.packed() + (v.stake_change.packed() + (v.order_time.packed() + v.is_open.packed()))), bytes@, q1);
                            <Name as Packed>::lemma_unique(v.owner, x1, bytes@, q1);
                            lemma_prefix_concat(v.rex_requested.packed(), v.proceeds.packed() + (v.stake_change.packed() + (v.order_time.packed() + v.is_open.packed())), bytes@, q2);
                            <Asset as Packed>::lemma_unique(v.rex_requested, x2, bytes@, q2);
                            lemma_prefix_concat(v.proceeds.packed(), v.stake_change.packed() + (v.order_time.packed() + v.is_open.packed()), bytes@, q3);
                        }
                    }
                }
                return Err(e);
            },
        };
        let ghost q4: int = p as int;
        let x4 = match <Asset as Packed>::read(bytes, &mut p) {
            Ok(x) => x,
            Err(e) => {
                proof {
                    assert forall|v: RexOrder| !prefix_at(#[trigger] v.packed(), bytes@, *old(pos) as int) by {
                        if prefix_at(v.packed(), bytes@, *old(pos) as int) {
                            lemma_prefix_concat(v.version.packed(), v.owner.packed() + (v.rex_requested.packed() + (v.proceeds.packed() + (v.stake_change.packed() + (v.order_time.packed() + v.is_open.packed())))), bytes@, q0);
                            <u8 as Packed>::lemma_unique(v.version, x0, bytes@, q0);
                            lemma_prefix_concat(v.owner.packed(), v.rex_requested.packed() + (v.proceeds.packed() + (v.stake_change.packed() + (v.order_time.packed() + v.is_open.packed()))), bytes@, q1);
                            <Name as Packed>::lemma_unique(v.owner, x1, bytes@, q1);
                            lemma_prefix_concat(v.rex_requested.packed(), v.proceeds.packed() + (v.stake_change.packed() + (v.order_time.packed() + v.is_open.packed())), bytes@, q2);
                            <Asset as Packed>::lemma_unique(v.rex_requested, x2, bytes@, q2);
                            lemma_prefix_concat(v.proceeds.packed(), v.stake_change.packed() + (v.order_time.packed() + v.is_open.packed()), bytes@, q3);
                            <Asset as Packed>::lemma_unique(v.proceeds, x3, bytes@, q3);
                            lemma_prefix_concat(v.stake_change.packed(), v.order_time.packed() + v.is_open.packed(), bytes@, q4);
                        }
                    }
                }
                return Err(e);
            },
        };
        let ghost q5: int = p as int;
        let x5 = match <TimePoint as Packed>::read(bytes, &mut p) {
            Ok(x) => x,
            Err(e) => {
                proof {
                    assert forall|v: RexOrder| !prefix_at(#[trigger] v.packed(), bytes@, *old(pos) as int) by {
                        if prefix_at(v.packed(), bytes@, *old(pos) as int) {
                            lemma_prefix_concat(v.version.packed(), v.owner.packed() + (v.rex_requested.packed() + (v.proceeds.packed() + (v.stake_change.packed() + (v.order_time.packed() + v.is_open.packed())))), bytes@, q0);
                            <u8 as Packed>::lemma_unique(v.version, x0, bytes@, q0);
                            lemma_prefix_concat(v.owner.packed(), v.rex_requested.packed() + (v.proceeds.packed() + (v.stake_change.packed() + (v.order_time.packed() + v.is_open.packed()))), bytes@, q1);
                            <Name as Packed>::lemma_unique(v.owner, x1, bytes@, q1);
                            lemma_prefix_concat(v.rex_requested.packed(), v.proceeds.packed() + (v.stake_change.packed() + (v.order_time.packed() + v.is_open.packed())), bytes@, q2);
                            <Asset as Packed>::lemma_unique(v.rex_requested, x2, bytes@, q2);
                            lemma_prefix_concat(v.proceeds.packed(), v.stake_change.packed() + (v.order_time.packed() + v.is_open.packed()), bytes@, q3);
                            <Asset as Packed>::lemma_unique(v.proceeds, x3, bytes@, q3);
                            lemma_prefix_concat(v.stake_change.packed(), v.order_time.packed() + v.is_open.packed(), bytes@, q4);
                            <Asset as Packed>::lemma_unique(v.stake_change, x4, bytes@, q4);
                            lemma_prefix_concat(v.order_time.packed(), v.is_open.packed(), bytes@, q5);
                        }
                    }
                }
                return Err(e);
            },
        };
        let ghost q6: int = p as int;
        let x6 = match <bool as Packed>::read(bytes, &mut p) {
            Ok(x) => x,
            Err(e) => {
                proof {
                    assert forall|v: RexOrder| !prefix_at(#[trigger] v.packed(), bytes@, *old(pos) as int) by {
                        if prefix_at(v.packed(), bytes@, *old(pos) as int) {
                            lemma_prefix_concat(v.version.packed(), v.owner.packed() + (v.rex_requested.packed() + (v.proceeds.packed() + (v.stake_change.packed() + (v.order_time.packed() + v.is_open.packed())))), bytes@, q0);
                            <u8 as Packed>::lemma_unique(v.version, x0, bytes@, q0);
                            lemma_prefix_concat(v.owner.packed(), v.rex_requested.packed() + (v.proceeds.packed() + (v.stake_change.packed() + (v.order_time.packed() + v.is_open.packed()))), bytes@, q1);
                            <Name as Packed>::lemma_unique(v.owner, x1, bytes@, q1);
                            lemma_prefix_concat(v.rex_requested.packed(), v.proceeds.packed() + (v.stake_change.packed() + (v.order_time.packed() + v.is_open.packed())), bytes@, q2);
                            <Asset as Packed>::lemma_unique(v.rex_requested, x2, bytes@, q2);
                            lemma_prefix_concat(v.proceeds.packed(), v.stake_change.packed() + (v.order_time.packed() + v.is_open.packed()), bytes@, q3);
                            <Asset as Packed>::lemma_unique(v.proceeds, x3, bytes@, q3);
                            lemma_prefix_concat(v.stake_change.packed(), v.order_time.packed() + v.is_open.packed(), bytes@, q4);
                            <Asset as Packed>::lemma_unique(v.stake_change, x4, bytes@, q4);
                            lemma_prefix_concat(v.order_time.packed(), v.is_open.packed(), bytes@, q5);
                            <TimePoint as Packed>::lemma_unique(v.order_time, x5, bytes@, q5);
                        }
                    }
                }
                return Err(e);
            },
        };
        let v = RexOrder { version: x0, owner: x1, rex_requested: x2, proceeds: x3, stake_change: x4, order_time: x5, is_open: x6 };
        proof {
            lemma_prefix_concat(v.order_time.packed(), v.is_open.packed(), bytes@, q5);
            lemma_prefix_concat(v.stake_change.packed(), v.order_time.packed() + v.is_open.packed(), bytes@, q4);
            lemma_prefix_concat(v.proceeds.packed(), v.stake_change.packed() + (v.order_time.packed() + v.is_open.packed()), bytes@, q3);
            lemma_prefix_concat(v.rex_requested.packed(), v.proceeds.packed() + (v.stake_change.packed() + (v.order_time.packed() + v.is_open.packed())), bytes@, q2);
            lemma_prefix_concat(v.owner.packed(), v.rex_requested.packed() + (v.proceeds.packed() + (v.stake_change.packed() + (v.order_time.packed() + v.is_open.packed()))), bytes@, q1);
            lemma_prefix_concat(v.version.packed(), v.owner.packed() + (v.rex_requested.packed() + (v.proceeds.packed() + (v.stake_change.packed() + (v.order_time.packed() + v.is_open.packed())))), bytes@, q0);
        }
        *pos = p;
        Ok(v)
    }

    fn write(&self, bytes: &mut [u8], pos: &mut usize) -> (r: Result<(), WriteError>) {
        proof {
            assert(self.packed().len() <= 66);
        }
        let n = self.num_bytes();
        let len = bytes.len();
        if *pos > len || n > len - *pos {
            return Err(WriteError::NotEnoughSpace);
        }
        let mut p = *pos;
        let ghost start = *pos as int;
        let ghost buf0 = bytes@;
        let _ = self.version.write(bytes, &mut p);
        let _ = self.owner.write(bytes, &mut p);
        proof {
            lemma_written_concat(buf0, start, self.version.packed(), self.owner.packed());
        }
        let _ = self.rex_requested.write(bytes, &mut p);
        proof {
            lemma_written_concat(buf0, start, self.version.packed() + self.owner.packed(), self.rex_requested.packed());
        }
        let _ = self.proceeds.write(bytes, &mut p);
        proof {
            lemma_written_concat(buf0, start, self.version.packed() + self.owner.packed() + self.rex_requested.packed(), self.proceeds.packed());
        }
        let _ = self.stake_change.write(bytes, &mut p);
        proof {
            lemma_written_concat(buf0, start, self.version.packed() + self.owner.packed() + self.rex_requested.packed() + self.proceeds.packed(), self.stake_change.packed());
        }
        let _ = self.order_time.write(bytes, &mut p);
        proof {
            lemma_written_concat(buf0, start, self.version.packed() + self.owner.packed() + self.rex_requested.packed() + self.proceeds.packed() + self.stake_change.packed(), self.order_time.packed());
        }
        let _ = self.is_open.write(bytes, &mut p);
        proof {
            lemma_written_concat(buf0, start, self.version.packed() + self.owner.packed() + self.rex_requested.packed() + self.proceeds.packed() + self.stake_change.packed() + self.order_time.packed(), self.is_open.packed());
        }
        proof {
            assert(self.version.packed() + self.owner.packed() + self.rex_requested.packed() + self.proceeds.packed() + self.stake_change.packed() + self.order_time.packed() + self.is_open.packed() =~= self.packed());
        }
        *pos = p;
        Ok(())
    }
}


impl Packed for ReturnBucket {
    open spec fn packed(&self) -> Seq<u8> {
        self.time.packed() + self.amount.packed()
    }

    proof fn lemma_unique(a: Self, b: Self, bytes: Seq<u8>, pos: int) {
        let ghost mut q = pos;
        lemma_prefix_concat(a.time.packed(), a.amount.packed(), bytes, q);
        lemma_prefix_concat(b.time.packed(), b.amount.packed(), bytes, q);
        <TimePointSec as Packed>::lemma_unique(a.time, b.time, bytes, q);
        q = q + a.time.packed().len();
        <i64 as Packed>::lemma_unique(a.amount, b.amount, bytes, q);
    }

    open spec fn same_value(&self, other: &Self) -> bool {
        &&& self.time.same_value(&other.time)
        &&& self.amount.same_value(&other.amount)
    }

    proof fn lemma_injective(a: Self, b: Self) {
        let bytes = a.packed();
        let pos: int = 0;
        assert(bytes.subrange(0, bytes.len() as int) =~= bytes);
        let ghost mut q = pos;
        lemma_prefix_concat(a.time.packed(), a.amount.packed(), bytes, q);
        lemma_prefix_concat(b.time.packed(), b.amount.packed(), bytes, q);
        <TimePointSec as Packed>::lemma_unique(a.time, b.time, bytes, q);
        <TimePointSec as Packed>::lemma_injective(a.time, b.time);
        q = q + a.time.packed().len();
        <i64 as Packed>::lemma_unique(a.amount, b.amount, bytes, q);
        <i64 as Packed>::lemma_injective(a.amount, b.amount);
    }

    fn num_bytes(&self) -> (n: usize) {
        self.time.num_bytes() + self.amount.num_bytes()
    }

    fn read(bytes: &[u8], pos: &mut usize) -> (r: Result<Self, ReadError>) {
        let mut p = *pos;
        let ghost q0: int = p as int;
        let x0 = match <TimePointSec as Packed>::read(bytes, &mut p) {
            Ok(x) => x,
            Err(e) => {
                proof {
                    assert forall|v: ReturnBucket| !prefix_at(#[trigger] v.packed(), bytes@, *old(pos) as int) by {
                        if prefix_at(v.packed(), bytes@, *old(pos) as int) {
                            lemma_prefix_concat(v.time.packed(), v.amount.packed(), bytes@, q0);
                        }
                    }
                }
                return Err(e);
            },
        };
        let ghost q1: int = p as int;
        let x1 = match <i64 as Packed>::read(bytes, &mut p) {
            Ok(x) => x,
            Err(e) => {
                proof {
                    assert forall|v: ReturnBucket| !prefix_at(#[trigger] v.packed(), bytes@, *old(pos) as int) by {
                        if prefix_at(v.packed(), bytes@, *old(pos) as int) {
                            lemma_prefix_concat(v.time.packed(), v.amount.packed(), bytes@, q0);
                            <TimePointSec as Packed>::lemma_unique(v.time, x0, bytes@, q0);
                        }
                    }
                }
                return Err(e);
            },
        };
        let v = ReturnBucket { time: x0, amount: x1 };
        proof {
            lemma_prefix_concat(v.time.packed(), v.amount.packed(), bytes@, q0);
        }
        *pos = p;
        Ok(v)
    }

    fn write(&self, bytes: &mut [u8], pos: &mut usize) -> (r: Result<(), WriteError>) {
        proof {
            assert(self.packed().len() <= 12);
        }
        let n = self.num_bytes();
        let len = bytes.len();
        if *pos > len || n > len - *pos {
            return Err(WriteError::NotEnoughSpace);
        }
        let mut p = *pos;
        let ghost start = *pos as int;
        let ghost buf0 = bytes@;
        let _ = self.time.write(bytes, &mut p);
        let _ = self.amount.write(bytes, &mut p);
        proof {
            lemma_written_concat(buf0, start, self.time.packed(), self.amount.packed());
        }
        proof {
            assert(self.time.packed() + self.amount.packed() =~= self.packed());
        }
        *pos = p;
        Ok(())
    }
}

impl Packed for RexReturnBuckets {
    open spec fn packed(&self) -> Seq<u8> {
        self.version.packed() + self.return_buckets.packed()
    }

    proof fn lemma_unique(a: Self, b: Self, bytes: Seq<u8>, pos: int) {
        let ghost mut q = pos;
        lemma_prefix_concat(a.version.packed(), a.return_buckets.packed(), bytes, q);
        lemma_prefix_concat(b.version.packed(), b.return_buckets.packed(), bytes, q);
        <u8 as Packed>::lemma_unique(a.version, b.version, bytes, q);
        q = q + a.version.packed().len();
        <Vec<ReturnBucket> as Packed>::lemma_unique(a.return_buckets, b.return_buckets, bytes, q);
    }

    open spec fn same_value(&self, other: &Self) -> bool {
        &&& self.version.same_value(&other.version)
        &&& self.return_buckets.same_value(&other.return_buckets)
    }

    proof fn lemma_injective(a: Self, b: Self) {
        let bytes = a.packed();
        let pos: int = 0;
        assert(bytes.subrange(0, bytes.len() as int) =~= bytes);
        let ghost mut q = pos;
        lemma_prefix_concat(a.version.packed(), a.return_buckets.packed(), bytes, q);
        lemma_prefix_concat(b.version.packed(), b.return_buckets.packed(), bytes, q);
        <u8 as Packed>::lemma_unique(a.version, b.version, bytes, q);
        <u8 as Packed>::lemma_injective(a.version, b.version);
        q = q + a.version.packed().len();
        <Vec<ReturnBucket> as Packed>::lemma_unique(a.return_buckets, b.return_buckets, bytes, q);
        <Vec<ReturnBucket> as Packed>::lemma_injective(a.return_buckets, b.return_buckets);
    }

    fn num_bytes(&self) -> (n: usize) {
        self.version.num_bytes() + self.return_buckets.num_bytes()
    }

    fn read(bytes: &[u8], pos: &mut usize) -> (r: Result<Self, ReadError>) {
        let mut p = *pos;
        let ghost q0: int = p as int;
        let x0 = match <u8 as Packed>::read(bytes, &mut p) {
            Ok(x) => x,
            Err(e) => {
                proof {
                    assert forall|v: RexReturnBuckets| !prefix_at(#[trigger] v.packed(), bytes@, *old(pos) as int) by {
                        if prefix_at(v.packed(), bytes@, *old(pos) as int) {
                            lemma_prefix_concat(v.version.packed(), v.return_buckets.packed(), bytes@, q0);
                        }
                    }
                }
                return Err(e);
            },
        };
        let ghost q1: int = p as int;
        let x1 = match <Vec<ReturnBucket> as Packed>::read(bytes, &mut p) {
            Ok(x) => x,
            Err(e) => {
                proof {
                    assert forall|v: RexReturnBuckets| !prefix_at(#[trigger] v.packed(), bytes@, *old(pos) as int) by {
                        if prefix_at(v.packed(), bytes@, *old(pos) as int) {
                            lemma_prefix_concat(v.version.packed(), v.return_buckets.packed(), bytes@, q0);
                            <u8 as Packed>::lemma_unique(v.version, x0, bytes@, q0);
                        }
                    }
                }
                return Err(e);
            },
        };
        let v = RexReturnBuckets { version: x0, return_buckets: x1 };
        proof {
            lemma_prefix_concat(v.version.packed(), v.return_buckets.packed(), bytes@, q0);
        }
        *pos = p;
        Ok(v)
    }

    fn write(&self, bytes: &mut [u8], pos: &mut usize) -> (r: Result<(), WriteError>) {
        let mut p = *pos;
        let ghost start = *pos as int;
        let ghost buf0 = bytes@;
        match self.version.write(bytes, &mut p) {
            Err(e) => {
                proof {
                    assert(self.packed() =~= self.version.packed() + (self.return_buckets.packed()));
                }
                return Err(e);
            },
            Ok(()) => {},
        }
        match self.return_buckets.write(bytes, &mut p) {
            Err(e) => {
                proof {
                    assert(self.packed() =~= self.version.packed() + self.return_buckets.packed());
                }
                return Err(e);
            },
            Ok(()) => {},
        }
        proof {
            lemma_written_concat(buf0, start, self.version.packed(), self.return_buckets.packed());
        }
        proof {
            assert(self.version.packed() + self.return_buckets.packed() =~= self.packed());
        }
        *pos = p;
        Ok(())
    }
}

/// `AbiHash` is encoded as its fields, one after the other, in the order
/// `owner`, `hash`.
pub proof fn lemma_abi_hash_layout(a: AbiHash)
    ensures
        a.packed() == a.owner.packed() + a.hash.packed(),
{
    assert(a.packed() =~= a.owner.packed() + a.hash.packed());
}

/// `CurrencyStats` is encoded as its fields, one after the other, in the order
/// `supply`, `max_supply`, `issuer`.
pub proof fn lemma_currency_stats_layout(a: CurrencyStats)
    ensures
        a.packed() == a.supply.packed() + a.max_supply.packed() + a.issuer.packed(),
{
    assert(a.packed() =~= a.supply.packed() + a.max_supply.packed() + a.issuer.packed());
}

/// `NameBid` is encoded as its fields, one after the other, in the order
/// `new_name`, `high_bidder`, `high_bid`, `last_bid_time`.
pub proof fn lemma_name_bid_layout(a: NameBid)
    ensures
        a.packed() == a.new_name.packed() + a.high_bidder.packed() + a.high_bid.packed() + a.last_bid_time.packed(),
{
    assert(a.packed() =~= a.new_name.packed() + a.high_bidder.packed() + a.high_bid.packed() + a.last_bid_time.packed());
}

/// `BidRefund` is encoded as its fields, one after the other, in the order
/// `bidder`, `amount`.
pub proof fn lemma_bid_refund_layout(a: BidRefund)
    ensures
        a.packed() == a.bidder.packed() + a.amount.packed(),
{
    assert(a.packed() =~= a.bidder.packed() + a.amount.packed());
}

/// `UserResources` is encoded as its fields, one after the other, in the order
/// `owner`, `net_weight`, `cpu_weight`, `ram_bytes`.
pub proof fn lemma_user_resources_layout(a: UserResources)
    ensures
        a.packed() == a.owner.packed() + a.net_weight.packed() + a.cpu_weight.packed() + a.ram_bytes.packed(),
{
    assert(a.packed() =~= a.owner.packed() + a.net_weight.packed() + a.cpu_weight.packed() + a.ram_bytes.packed());
}

/// `DelegatedBandwidth` is encoded as its fields, one after the other, in the order
/// `from`, `to`, `net_weight`, `cpu_weight`.
pub proof fn lemma_delegated_bandwidth_layout(a: DelegatedBandwidth)
    ensures
        a.packed() == a.from.packed() + a.to.packed() + a.net_weight.packed() + a.cpu_weight.packed(),
{
    assert(a.packed() =~= a.from.packed() + a.to.packed() + a.net_weight.packed() + a.cpu_weight.packed());
}

/// `RefundRequest` is encoded as its fields, one after the other, in the order
/// `owner`, `request_time`, `net_amount`, `cpu_amount`.
pub proof fn lemma_refund_request_layout(a: RefundRequest)
    ensures
        a.packed() == a.owner.packed() + a.request_time.packed() + a.net_amount.packed() + a.cpu_amount.packed(),
{
    assert(a.packed() =~= a.owner.packed() + a.request_time.packed() + a.net_amount.packed() + a.cpu_amount.packed());
}

/// `DelegatedXPR` is encoded as its fields, one after the other, in the order
/// `from`, `to`, `quantity`.
pub proof fn lemma_delegated_x_p_r_layout(a: DelegatedXPR)
    ensures
        a.packed() == a.from.packed() + a.to.packed() + a.quantity.packed(),
{
    assert(a.packed() =~= a.from.packed() + a.to.packed() + a.quantity.packed());
}

/// `VotersXPR` is encoded as its fields, one after the other, in the order
/// `owner`, `staked`, `isqualified`, `claimamount`, `lastclaim`, `startstake`, `startqualif`.
pub proof fn lemma_voters_x_p_r_layout(a: VotersXPR)
    ensures
        a.packed() == a.owner.packed() + a.staked.packed() + a.isqualified.packed() + a.claimamount.packed() + a.lastclaim.packed() + a.startstake.packed() + a.startqualif.packed(),
{
    assert(a.packed() =~= a.owner.packed() + a.staked.packed() + a.isqualified.packed() + a.claimamount.packed() + a.lastclaim.packed() + a.startstake.packed() + a.startqualif.packed());
}

/// `XPRRefundRequest` is encoded as its fields, one after the other, in the order
/// `owner`, `request_time`, `quantity`.
pub proof fn lemma_x_p_r_refund_request_layout(a: XPRRefundRequest)
    ensures
        a.packed() == a.owner.packed() + a.request_time.packed() + a.quantity.packed(),
{
    assert(a.packed() =~= a.owner.packed() + a.request_time.packed() + a.quantity.packed());
}

/// `GlobalStateXPR` is encoded as its fields, one after the other, in the order
/// `max_bp_per_vote`, `min_bp_reward`, `unstake_period`, `process_by`, `process_interval`, `voters_claim_interval`, `spare1`, `spare2`.
pub proof fn lemma_global_state_x_p_r_layout(a: GlobalStateXPR)
    ensures
        a.packed() == a.max_bp_per_vote.packed() + a.min_bp_reward.packed() + a.unstake_period.packed() + a.process_by.packed() + a.process_interval.packed() + a.voters_claim_interval.packed() + a.spare1.packed() + a.spare2.packed(),
{
    assert(a.packed() =~= a.max_bp_per_vote.packed() + a.min_bp_reward.packed() + a.unstake_period.packed() + a.process_by.packed() + a.process_interval.packed() + a.voters_claim_interval.packed() + a.spare1.packed() + a.spare2.packed());
}

/// `GlobalStateD` is encoded as its fields, one after the other, in the order
/// `totalstaked`, `totalrstaked`, `totalrvoters`, `notclaimed`, `pool`, `processtime`, `processtimeupd`, `isprocessing`, `process_from`, `process_quant`, `processrstaked`, `processed`, `spare1`, `spare2`.
pub proof fn lemma_global_state_d_layout(a: GlobalStateD)
    ensures
        a.packed() == a.totalstaked.packed() + a.totalrstaked.packed() + a.totalrvoters.packed() + a.notclaimed.packed() + a.pool.packed() + a.processtime.packed() + a.processtimeupd.packed() + a.isprocessing.packed() + a.process_from.packed() + a.process_quant.packed() + a.processrstaked.packed() + a.processed.packed() + a.spare1.packed() + a.spare2.packed(),
{
    assert(a.packed() =~= a.totalstaked.packed() + a.totalrstaked.packed() + a.totalrvoters.packed() + a.notclaimed.packed() + a.pool.packed() + a.processtime.packed() + a.processtimeupd.packed() + a.isprocessing.packed() + a.process_from.packed() + a.process_quant.packed() + a.processrstaked.packed() + a.processed.packed() + a.spare1.packed() + a.spare2.packed());
}

/// `GlobalStateRAM` is encoded as its fields, one after the other, in the order
/// `ram_price_per_byte`, `max_per_user_bytes`, `ram_fee_percent`, `total_ram`, `total_xpr`.
pub proof fn lemma_global_state_r_a_m_layout(a: GlobalStateRAM)
    ensures
        a.packed() == a.ram_price_per_byte.packed() + a.max_per_user_bytes.packed() + a.ram_fee_percent.packed() + a.total_ram.packed() + a.total_xpr.packed(),
{
    assert(a.packed() =~= a.ram_price_per_byte.packed() + a.max_per_user_bytes.packed() + a.ram_fee_percent.packed() + a.total_ram.packed() + a.total_xpr.packed());
}

/// `UserRAM` is encoded as its fields, one after the other, in the order
/// `account`, `ram`, `quantity`, `ramlimit`.
pub proof fn lemma_user_r_a_m_layout(a: UserRAM)
    ensures
        a.packed() == a.account.packed() + a.ram.packed() + a.quantity.packed() + a.ramlimit.packed(),
{
    assert(a.packed() =~= a.account.packed() + a.ram.packed() + a.quantity.packed() + a.ramlimit.packed());
}

/// `RexPool` is encoded as its fields, one after the other, in the order
/// `version`, `total_lent`, `total_unlent`, `total_rent`, `total_lendable`, `total_rex`, `namebid_proceeds`, `loan_num`.
pub proof fn lemma_rex_pool_layout(a: RexPool)
    ensures
        a.packed() == a.version.packed() + a.total_lent.packed() + a.total_unlent.packed() + a.total_rent.packed() + a.total_lendable.packed() + a.total_rex.packed() + a.namebid_proceeds.packed() + a.loan_num.packed(),
{
    assert(a.packed() =~= a.version.packed() + a.total_lent.packed() + a.total_unlent.packed() + a.total_rent.packed() + a.total_lendable.packed() + a.total_rex.packed() + a.namebid_proceeds.packed() + a.loan_num.packed());
}

/// `RexReturnPool` is encoded as its fields, one after the other, in the order
/// `version`, `last_dist_time`, `pending_bucket_time`, `oldest_bucket_time`, `pending_bucket_proceeds`, `current_rate_of_proceeds`, `proceeds`.
pub proof fn lemma_rex_return_pool_layout(a: RexReturnPool)
    ensures
        a.packed() == a.version.packed() + a.last_dist_time.packed() + a.pending_bucket_time.packed() + a.oldest_bucket_time.packed() + a.pending_bucket_proceeds.packed() + a.current_rate_of_proceeds.packed() + a.proceeds.packed(),
{
    assert(a.packed() =~= a.version.packed() + a.last_dist_time.packed() + a.pending_bucket_time.packed() + a.oldest_bucket_time.packed() + a.pending_bucket_proceeds.packed() + a.current_rate_of_proceeds.packed() + a.proceeds.packed());
}

/// `RexFund` is encoded as its fields, one after the other, in the order
/// `version`, `owner`, `balance`.
pub proof fn lemma_rex_fund_layout(a: RexFund)
    ensures
        a.packed() == a.version.packed() + a.owner.packed() + a.balance.packed(),
{
    assert(a.packed() =~= a.version.packed() + a.owner.packed() + a.balance.packed());
}

/// `RexBalance` is encoded as its fields, one after the other, in the order
/// `version`, `owner`, `vote_stake`, `rex_balance`, `matured_rex`.
pub proof fn lemma_rex_balance_layout(a: RexBalance)
    ensures
        a.packed() == a.version.packed() + a.owner.packed() + a.vote_stake.packed() + a.rex_balance.packed() + a.matured_rex.packed(),
{
    assert(a.packed() =~= a.version.packed() + a.owner.packed() + a.vote_stake.packed() + a.rex_balance.packed() + a.matured_rex.packed());
}

/// `RexLoan` is encoded as its fields, one after the other, in the order
/// `version`, `from`, `receiver`, `payment`, `balance`, `total_staked`, `loan_num`, `expiration`.
pub proof fn lemma_rex_loan_layout(a: RexLoan)
    ensures
        a.packed() == a.version.packed() + a.from.packed() + a.receiver.packed() + a.payment.packed() + a.balance.packed() + a.total_staked.packed() + a.loan_num.packed() + a.expiration.packed(),
{
    assert(a.packed() =~= a.version.packed() + a.from.packed() + a.receiver.packed() + a.payment.packed() + a.balance.packed() + a.total_staked.packed() + a.loan_num.packed() + a.expiration.packed());
}

/// `RexOrder` is encoded as its fields, one after the other, in the order
/// `version`, `owner`, `rex_requested`, `proceeds`, `stake_change`, `order_time`, `is_open`.
pub proof fn lemma_rex_order_layout(a: RexOrder)
    ensures
        a.packed() == a.version.packed() + a.owner.packed() + a.rex_requested.packed() + a.proceeds.packed() + a.stake_change.packed() + a.order_time.packed() + a.is_open.packed(),
{
    assert(a.packed() =~= a.version.packed() + a.owner.packed() + a.rex_requested.packed() + a.proceeds.packed() + a.stake_change.packed() + a.order_time.packed() + a.is_open.packed());
}

/// `ReturnBucket` is encoded as its fields, one after the other, in the order
/// `time`, `amount`.
pub proof fn lemma_return_bucket_layout(a: ReturnBucket)
    ensures
        a.packed() == a.time.packed() + a.amount.packed(),
{
    assert(a.packed() =~= a.time.packed() + a.amount.packed());
}

/// `RexReturnBuckets` is encoded as its fields, one after the other, in the order
/// `version`, `return_buckets`.
pub proof fn lemma_rex_return_buckets_layout(a: RexReturnBuckets)
    ensures
        a.packed() == a.version.packed() + a.return_buckets.packed(),
{
    assert(a.packed() =~= a.version.packed() + a.return_buckets.packed());
}

} // verus!
