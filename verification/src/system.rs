use vstd::prelude::*;
use vstd::string::StrSliceExecFns;

use crate::asset::{div_toward_zero, spec_try_add, spec_try_sub, Asset, AssetError, MAX_ASSET_AMOUNT};
use crate::authority::{spec_authority_valid, BlockHeader, BlockSigningAuthority};
use crate::keys::{FixedBytes, PublicKey};
use crate::action::Action;
use crate::args::OpenArgs;
use crate::authority::PermissionLevel;
use crate::name::{is_name_suffix, lemma_suffix_unique, name_digit, spec_name_bytes, trim_dots, Name};
use crate::store::{row_after, RowWrite};
use crate::symbol::Symbol;
use crate::keys::Checksum256;
use crate::tables::{AbiHash, DelegatedBandwidth, RefundRequest, UserResources};
use crate::time::{BlockTimestamp, TimePoint, TimePointSec};

verus! {

/// The value of the account that holds staked tokens: `pulse.stake`.
pub const STAKE_ACCOUNT: u64 = 12584048032157537280u64;

/// The RAM every account gets for free, in bytes.
pub const RAM_GIFT_BYTES: i64 = 1400i64;

/// Why a system action was refused.
#[derive(Debug, Clone, Copy, PartialEq, Eq, Structural)]
pub enum SystemError {
    /// The action needs the authority of this account.
    MissingAuth(Name),
    ZeroStake,
    OppositeSigns,
    InsufficientNet,
    InsufficientCpu,
    InsufficientTotalNet,
    InsufficientTotalCpu,
    NegativeVoteStake,
    AssetCompareMismatch,
    MustStakePositive,
    TransferToSelf,
    MustUnstakePositive,
    NotActivated,
    RefundNotFound,
    RefundNotAvailable,
    RamOnlyIncrease,
    RamUnrealistic,
    RamBelowReserved,
    MustBuyWithCore,
    MustPurchasePositive,
    MustReservePositive,
    OnlySuffix,
    MinLength,
    NoEffect,
    ProxyNotAllowed,
    UrlTooLong,
    InvalidAuthority,
    ProducerNotFound,
    UnsupportedVersion,
    AlreadyInitialized,
    CorePrecisionMismatch,
    SupplyNotPositive,
    SymbolMissing,
    SameSymbolConversion,
    InvalidConversion,
    NotInitialized,
    ProxyAndProducers,
    ProxyToSelf,
    TooManyProducers,
    ProducersNotSorted,
    MustStakeToVote,
    ProxyUsesProxy,
    /// An addition or subtraction of assets was refused.
    Asset(AssetError),
}

impl SystemError {
    /// The text of the message, as a sequence of characters.
    pub open spec fn spec_message(&self) -> Seq<char> {
        match self {
            SystemError::MissingAuth(_) => "missing required authority"@,
            SystemError::ZeroStake => "should stake non-zero amount"@,
            SystemError::OppositeSigns => "net and cpu deltas cannot be opposite signs"@,
            SystemError::InsufficientNet => "insufficient staked net bandwidth"@,
            SystemError::InsufficientCpu => "insufficient staked cpu bandwidth"@,
            SystemError::InsufficientTotalNet => "insufficient staked total net bandwidth"@,
            SystemError::InsufficientTotalCpu => "insufficient staked total cpu bandwidth"@,
            SystemError::NegativeVoteStake => "stake for voting cannot be negative"@,
            SystemError::AssetCompareMismatch => "comparison of assets with different symbols is not allowed"@,
            SystemError::MustStakePositive => "must stake a positive amount"@,
            SystemError::TransferToSelf => "cannot use transfer flag if delegating to self"@,
            SystemError::MustUnstakePositive => "must unstake a positive amount"@,
            SystemError::NotActivated => "cannot undelegate bandwidth until the chain is activated (at least 15% of all tokens participate in voting)"@,
            SystemError::RefundNotFound => "refund request not found"@,
            SystemError::RefundNotAvailable => "refund is not available yet"@,
            SystemError::RamOnlyIncrease => "ram may only be increased"@,
            SystemError::RamUnrealistic => "ram size is unrealistic"@,
            SystemError::RamBelowReserved => "attempt to set max below reserved"@,
            SystemError::MustBuyWithCore => "must buy ram with core token"@,
            SystemError::MustPurchasePositive => "must purchase a positive amount"@,
            SystemError::MustReservePositive => "must reserve a positive amount"@,
            SystemError::OnlySuffix => "only suffix may create this account"@,
            SystemError::MinLength => "minimum 4 character length"@,
            SystemError::NoEffect => "action has no effect"@,
            SystemError::ProxyNotAllowed => "account that uses a proxy is not allowed to become a proxy"@,
            SystemError::UrlTooLong => "url too long"@,
            SystemError::InvalidAuthority => "invalid producer authority"@,
            SystemError::ProducerNotFound => "producer not found"@,
            SystemError::UnsupportedVersion => "unsupported version for init action"@,
            SystemError::AlreadyInitialized => "system contract has already been initialized"@,
            SystemError::CorePrecisionMismatch => "specified core symbol does not exist (precision mismatch)"@,
            SystemError::SupplyNotPositive => "system token supply must be greater than 0"@,
            SystemError::SymbolMissing => "symbol does not exist"@,
            SystemError::SameSymbolConversion => "cannot convert to the same symbol"@,
            SystemError::InvalidConversion => "invalid conversion"@,
            SystemError::NotInitialized => "system contract must first be initialized"@,
            SystemError::ProxyAndProducers => "cannot vote for producers and proxy at same time"@,
            SystemError::ProxyToSelf => "cannot proxy to self"@,
            SystemError::TooManyProducers => "attempt to vote for too many producers"@,
            SystemError::ProducersNotSorted => "producer votes must be unique and sorted"@,
            SystemError::MustStakeToVote => "user must stake before they can vote"@,
            SystemError::ProxyUsesProxy => "account registered as a proxy is not allowed to use a proxy"@,
            SystemError::Asset(e) => e.spec_message(),
        }
    }

    /// The message with which the action aborts.
    pub fn message(&self) -> (r: &'static str)
        ensures
            r@ == self.spec_message(),
    {
        match self {
            SystemError::MissingAuth(_) => "missing required authority",
            SystemError::ZeroStake => "should stake non-zero amount",
            SystemError::OppositeSigns => "net and cpu deltas cannot be opposite signs",
            SystemError::InsufficientNet => "insufficient staked net bandwidth",
            SystemError::InsufficientCpu => "insufficient staked cpu bandwidth",
            SystemError::InsufficientTotalNet => "insufficient staked total net bandwidth",
            SystemError::InsufficientTotalCpu => "insufficient staked total cpu bandwidth",
            SystemError::NegativeVoteStake => "stake for voting cannot be negative",
            SystemError::AssetCompareMismatch => "comparison of assets with different symbols is not allowed",
            SystemError::MustStakePositive => "must stake a positive amount",
            SystemError::TransferToSelf => "cannot use transfer flag if delegating to self",
            SystemError::MustUnstakePositive => "must unstake a positive amount",
            SystemError::NotActivated => "cannot undelegate bandwidth until the chain is activated (at least 15% of all tokens participate in voting)",
            SystemError::RefundNotFound => "refund request not found",
            SystemError::RefundNotAvailable => "refund is not available yet",
            SystemError::RamOnlyIncrease => "ram may only be increased",
            SystemError::RamUnrealistic => "ram size is unrealistic",
            SystemError::RamBelowReserved => "attempt to set max below reserved",
            SystemError::MustBuyWithCore => "must buy ram with core token",
            SystemError::MustPurchasePositive => "must purchase a positive amount",
            SystemError::MustReservePositive => "must reserve a positive amount",
            SystemError::OnlySuffix => "only suffix may create this account",
            SystemError::MinLength => "minimum 4 character length",
            SystemError::NoEffect => "action has no effect",
            SystemError::ProxyNotAllowed => "account that uses a proxy is not allowed to become a proxy",
            SystemError::UrlTooLong => "url too long",
            SystemError::InvalidAuthority => "invalid producer authority",
            SystemError::ProducerNotFound => "producer not found",
            SystemError::UnsupportedVersion => "unsupported version for init action",
            SystemError::AlreadyInitialized => "system contract has already been initialized",
            SystemError::CorePrecisionMismatch => "specified core symbol does not exist (precision mismatch)",
            SystemError::SupplyNotPositive => "system token supply must be greater than 0",
            SystemError::SymbolMissing => "symbol does not exist",
            SystemError::SameSymbolConversion => "cannot convert to the same symbol",
            SystemError::InvalidConversion => "invalid conversion",
            SystemError::NotInitialized => "system contract must first be initialized",
            SystemError::ProxyAndProducers => "cannot vote for producers and proxy at same time",
            SystemError::ProxyToSelf => "cannot proxy to self",
            SystemError::TooManyProducers => "attempt to vote for too many producers",
            SystemError::ProducersNotSorted => "producer votes must be unique and sorted",
            SystemError::MustStakeToVote => "user must stake before they can vote",
            SystemError::ProxyUsesProxy => "account registered as a proxy is not allowed to use a proxy",
            SystemError::Asset(e) => e.message(),
        }
    }
}

/// The resource limits of an account, as the host keeps them.
#[derive(Debug, Clone, Copy, PartialEq, Eq, Structural)]
pub struct ResourceLimits {
    pub ram_bytes: i64,
    pub net_weight: i64,
    pub cpu_weight: i64,
}

/// The absolute value of an integer.
pub open spec fn abs(x: int) -> int {
    if x < 0 {
        -x
    } else {
        x
    }
}

/// The larger of two integers.
pub open spec fn max(x: int, y: int) -> int {
    if x < y {
        y
    } else {
        x
    }
}

/// The sum of the two deltas, when they may be applied: not both zero, of the
/// same symbol, summing without overflow, and not of opposite signs.
pub open spec fn spec_check_deltas(net: Asset, cpu: Asset) -> Result<Asset, SystemError> {
    if net.amount == 0 && cpu.amount == 0 {
        Err(SystemError::ZeroStake)
    } else {
        match spec_try_add(net, cpu) {
            Err(e) => Err(SystemError::Asset(e)),
            Ok(sum) => if abs(sum.amount as int) < max(abs(net.amount as int), abs(cpu.amount as int)) {
                Err(SystemError::OppositeSigns)
            } else {
                Ok(sum)
            },
        }
    }
}

fn check_deltas(net: Asset, cpu: Asset) -> (r: Result<Asset, SystemError>)
    ensures
        r == spec_check_deltas(net, cpu),
{
    if net.amount == 0 && cpu.amount == 0 {
        return Err(SystemError::ZeroStake);
    }
    let sum = match net.try_add(cpu) {
        Err(e) => {
            return Err(SystemError::Asset(e));
        },
        Ok(s) => s,
    };
    let s = sum.amount as i128;
    let n = net.amount as i128;
    let c = cpu.amount as i128;
    let abs_s: i128 = if s < 0 {
        -s
    } else {
        s
    };
    let abs_n: i128 = if n < 0 {
        -n
    } else {
        n
    };
    let abs_c: i128 = if c < 0 {
        -c
    } else {
        c
    };
    let m: i128 = if abs_n < abs_c {
        abs_c
    } else {
        abs_n
    };
    if abs_s < m {
        return Err(SystemError::OppositeSigns);
    }
    Ok(sum)
}

/// The stake delegated from `from` to `receiver` after the deltas: the new row
/// or the changed one; nothing when it ends up empty, which removes a found row.
pub open spec fn spec_delegated_row(
    from: Name,
    receiver: Name,
    net: Asset,
    cpu: Asset,
    existing: Option<DelegatedBandwidth>,
) -> Result<DelegatedBandwidth, SystemError> {
    match existing {
        None => Ok(DelegatedBandwidth { from, to: receiver, net_weight: net, cpu_weight: cpu }),
        Some(d) => match spec_try_add(d.net_weight, net) {
            Err(e) => Err(SystemError::Asset(e)),
            Ok(n) => match spec_try_add(d.cpu_weight, cpu) {
                Err(e) => Err(SystemError::Asset(e)),
                Ok(c) => Ok(DelegatedBandwidth { net_weight: n, cpu_weight: c, ..d }),
            },
        },
    }
}

/// The change to the delegation row: a new row billed to `from`, the found row
/// replaced with the same payer, or removed when nothing is left delegated.
pub open spec fn spec_delegated(
    from: Name,
    receiver: Name,
    net: Asset,
    cpu: Asset,
    existing: Option<DelegatedBandwidth>,
) -> Result<Option<RowWrite<DelegatedBandwidth>>, SystemError> {
    match spec_delegated_row(from, receiver, net, cpu, existing) {
        Err(e) => Err(e),
        Ok(row) => if row.net_weight.amount < 0 {
            Err(SystemError::InsufficientNet)
        } else if row.cpu_weight.amount < 0 {
            Err(SystemError::InsufficientCpu)
        } else if row.net_weight.amount == 0 && row.cpu_weight.amount == 0 {
            if existing is Some {
                Ok(Some(RowWrite::Remove))
            } else {
                Ok(None)
            }
        } else if existing is Some {
            Ok(Some(RowWrite::Update { payer: Name(0), row }))
        } else {
            Ok(Some(RowWrite::Insert { payer: from, row }))
        },
    }
}

fn delegated_change(
    from: Name,
    receiver: Name,
    net: Asset,
    cpu: Asset,
    existing: Option<DelegatedBandwidth>,
) -> (r: Result<Option<RowWrite<DelegatedBandwidth>>, SystemError>)
    ensures
        r == spec_delegated(from, receiver, net, cpu, existing),
{
    let row = match existing {
        None => DelegatedBandwidth { from, to: receiver, net_weight: net, cpu_weight: cpu },
        Some(d) => {
            let n = match d.net_weight.try_add(net) {
                Err(e) => {
                    return Err(SystemError::Asset(e));
                },
                Ok(n) => n,
            };
            let c = match d.cpu_weight.try_add(cpu) {
                Err(e) => {
                    return Err(SystemError::Asset(e));
                },
                Ok(c) => c,
            };
            DelegatedBandwidth { from: d.from, to: d.to, net_weight: n, cpu_weight: c }
        },
    };
    if row.net_weight.amount < 0 {
        return Err(SystemError::InsufficientNet);
    }
    if row.cpu_weight.amount < 0 {
        return Err(SystemError::InsufficientCpu);
    }
    if row.is_empty() {
        if existing.is_some() {
            return Ok(Some(RowWrite::Remove));
        } else {
            return Ok(None);
        }
    }
    if existing.is_some() {
        Ok(Some(RowWrite::Update { payer: Name(0), row }))
    } else {
        Ok(Some(RowWrite::Insert { payer: from, row }))
    }
}

/// The totals of `receiver` after the deltas: the new row or the changed one.
pub open spec fn spec_totals_row(
    receiver: Name,
    net: Asset,
    cpu: Asset,
    existing: Option<UserResources>,
) -> Result<UserResources, SystemError> {
    match existing {
        None => Ok(UserResources { owner: receiver, net_weight: net, cpu_weight: cpu, ram_bytes: 0 }),
        Some(t) => match spec_try_add(t.net_weight, net) {
            Err(e) => Err(SystemError::Asset(e)),
            Ok(n) => match spec_try_add(t.cpu_weight, cpu) {
                Err(e) => Err(SystemError::Asset(e)),
                Ok(c) => Ok(UserResources { net_weight: n, cpu_weight: c, ..t }),
            },
        },
    }
}

/// Whether `flags` marks the resource with bit `bit` as managed by hand.
pub open spec fn managed(flags: Option<u32>, bit: u32) -> bool {
    match flags {
        Some(f) => f & bit != 0,
        None => false,
    }
}

/// Whether setting the limits adds the RAM gift to the receiver's bytes: RAM
/// is not managed by hand, and net and CPU are not both managed by hand.
pub open spec fn gift_needed(flags: Option<u32>) -> bool {
    !managed(flags, 1) && !(managed(flags, 2) && managed(flags, 4))
}

/// The limits to set for `receiver` once its totals are `tot`: each resource
/// managed by hand keeps its current limit; otherwise RAM is the larger of the
/// current limit and the bought bytes plus the gift, and net and CPU follow
/// the stake. Nothing is set when both net and CPU are managed by hand.
pub open spec fn spec_new_limits(tot: UserResources, flags: Option<u32>, current: ResourceLimits) -> Option<
    ResourceLimits,
> {
    if managed(flags, 2) && managed(flags, 4) {
        None
    } else {
        Some(
            ResourceLimits {
                ram_bytes: if managed(flags, 1) {
                    current.ram_bytes
                } else {
                    max(tot.ram_bytes + RAM_GIFT_BYTES, current.ram_bytes as int) as i64
                },
                net_weight: if managed(flags, 2) {
                    current.net_weight
                } else {
                    tot.net_weight.amount
                },
                cpu_weight: if managed(flags, 4) {
                    current.cpu_weight
                } else {
                    tot.cpu_weight.amount
                },
            },
        )
    }
}

/// The change to the totals row of `receiver`, and the limits to set.
pub open spec fn spec_totals(
    from: Name,
    receiver: Name,
    net: Asset,
    cpu: Asset,
    existing: Option<UserResources>,
    flags: Option<u32>,
    current: ResourceLimits,
) -> Result<(Option<RowWrite<UserResources>>, Option<ResourceLimits>), SystemError> {
    match spec_totals_row(receiver, net, cpu, existing) {
        Err(e) => Err(e),
        Ok(tot) => if tot.net_weight.amount < 0 {
            Err(SystemError::InsufficientTotalNet)
        } else if tot.cpu_weight.amount < 0 {
            Err(SystemError::InsufficientTotalCpu)
        } else {
            let limits = spec_new_limits(tot, flags, current);
            let empty = tot.net_weight.amount == 0 && tot.cpu_weight.amount == 0 && tot.ram_bytes
                == 0;
            let w = if empty {
                if existing is Some {
                    Some(RowWrite::Remove)
                } else {
                    None
                }
            } else if existing is Some {
                Some(
                    RowWrite::Update {
                        payer: if from == receiver {
                            from
                        } else {
                            Name(0)
                        },
                        row: tot,
                    },
                )
            } else {
                Some(RowWrite::Insert { payer: from, row: tot })
            };
            Ok((w, limits))
        },
    }
}

fn totals_change(
    from: Name,
    receiver: Name,
    net: Asset,
    cpu: Asset,
    existing: Option<UserResources>,
    flags: Option<u32>,
    current: ResourceLimits,
) -> (r: Result<(Option<RowWrite<UserResources>>, Option<ResourceLimits>), SystemError>)
    requires
        gift_needed(flags) ==> (existing matches Some(t) ==> t.ram_bytes + RAM_GIFT_BYTES <= i64::MAX),
    ensures
        r == spec_totals(from, receiver, net, cpu, existing, flags, current),
{
    let tot = match existing {
        None => UserResources { owner: receiver, net_weight: net, cpu_weight: cpu, ram_bytes: 0 },
        Some(t) => {
            let n = match t.net_weight.try_add(net) {
                Err(e) => {
                    return Err(SystemError::Asset(e));
                },
                Ok(n) => n,
            };
            let c = match t.cpu_weight.try_add(cpu) {
                Err(e) => {
                    return Err(SystemError::Asset(e));
                },
                Ok(c) => c,
            };
            UserResources { owner: t.owner, net_weight: n, cpu_weight: c, ram_bytes: t.ram_bytes }
        },
    };
    if tot.net_weight.amount < 0 {
        return Err(SystemError::InsufficientTotalNet);
    }
    if tot.cpu_weight.amount < 0 {
        return Err(SystemError::InsufficientTotalCpu);
    }
    let (ram_managed, net_managed, cpu_managed) = match flags {
        Some(f) => (f & 1 != 0, f & 2 != 0, f & 4 != 0),
        None => (false, false, false),
    };
    let limits = if net_managed && cpu_managed {
        None
    } else {
        let ram = if ram_managed {
            current.ram_bytes
        } else {
            let gifted = tot.ram_bytes + RAM_GIFT_BYTES;
            if gifted < current.ram_bytes {
                current.ram_bytes
            } else {
                gifted
            }
        };
        let net_limit = if net_managed {
            current.net_weight
        } else {
            tot.net_weight.amount
        };
        let cpu_limit = if cpu_managed {
            current.cpu_weight
        } else {
            tot.cpu_weight.amount
        };
        Some(ResourceLimits { ram_bytes: ram, net_weight: net_limit, cpu_weight: cpu_limit })
    };
    let w = if tot.is_empty() {
        if existing.is_some() {
            Some(RowWrite::Remove)
        } else {
            None
        }
    } else if existing.is_some() {
        let payer = if from == receiver {
            from
        } else {
            Name(0)
        };
        Some(RowWrite::Update { payer, row: tot })
    } else {
        Some(RowWrite::Insert { payer: from, row: tot })
    };
    Ok((w, limits))
}

/// What stays of a delta after it has been set against a pending refund: a
/// negative refund amount is moved back into the delta and the refund cleared,
/// otherwise the delta is used up.
pub open spec fn settle(refund: Asset, delta: Asset) -> (Asset, Asset) {
    if refund.amount < 0 {
        (Asset { amount: 0, symbol: refund.symbol }, Asset { amount: (-refund.amount) as i64, symbol: refund.symbol })
    } else {
        (refund, Asset { amount: 0, symbol: delta.symbol })
    }
}

/// The effect of the deltas on the refund of `from`, when it delegates to
/// itself or undelegates: the change to its refund row, whether a deferred
/// refund must be scheduled, and what is left of the two deltas.
pub open spec fn spec_refund(
    from: Name,
    net: Asset,
    cpu: Asset,
    existing: Option<RefundRequest>,
    now: TimePointSec,
    core: Symbol,
) -> Result<(Option<RowWrite<RefundRequest>>, bool, Asset, Asset), SystemError> {
    match existing {
        Some(r) => match spec_try_sub(r.net_amount, net) {
            Err(e) => Err(SystemError::Asset(e)),
            Ok(n1) => match spec_try_sub(r.cpu_amount, cpu) {
                Err(e) => Err(SystemError::Asset(e)),
                Ok(c1) => {
                    let (n2, net_left) = settle(n1, net);
                    let (c2, cpu_left) = settle(c1, cpu);
                    let row = RefundRequest {
                        owner: r.owner,
                        request_time: if net.amount < 0 || cpu.amount < 0 {
                            now
                        } else {
                            r.request_time
                        },
                        net_amount: n2,
                        cpu_amount: c2,
                    };
                    if n2.amount == 0 && c2.amount == 0 {
                        Ok((Some(RowWrite::Remove), false, net_left, cpu_left))
                    } else {
                        Ok((Some(RowWrite::Update { payer: Name(0), row }), true, net_left, cpu_left))
                    }
                },
            },
        },
        None => if net.amount < 0 || cpu.amount < 0 {
            let row = RefundRequest {
                owner: from,
                net_amount: if net.amount < 0 {
                    Asset { amount: (-net.amount) as i64, symbol: net.symbol }
                } else {
                    Asset { amount: 0, symbol: core }
                },
                cpu_amount: if cpu.amount < 0 {
                    Asset { amount: (-cpu.amount) as i64, symbol: cpu.symbol }
                } else {
                    Asset { amount: 0, symbol: core }
                },
                request_time: now,
            };
            let net_left = if net.amount < 0 {
                Asset { amount: 0, symbol: net.symbol }
            } else {
                net
            };
            let cpu_left = if cpu.amount < 0 {
                Asset { amount: 0, symbol: cpu.symbol }
            } else {
                cpu
            };
            Ok((Some(RowWrite::Insert { payer: from, row }), true, net_left, cpu_left))
        } else {
            Ok((None, false, net, cpu))
        },
    }
}

fn settle_exec(refund: Asset, delta: Asset) -> (r: (Asset, Asset))
    requires
        refund.amount != i64::MIN,
    ensures
        r == settle(refund, delta),
{
    if refund.amount < 0 {
        (Asset { amount: 0, symbol: refund.symbol }, Asset { amount: -refund.amount, symbol: refund.symbol })
    } else {
        (refund, Asset { amount: 0, symbol: delta.symbol })
    }
}

fn refund_change(
    from: Name,
    net: Asset,
    cpu: Asset,
    existing: Option<RefundRequest>,
    now: TimePointSec,
    core: Symbol,
) -> (r: Result<(Option<RowWrite<RefundRequest>>, bool, Asset, Asset), SystemError>)
    requires
        net.amount != i64::MIN,
        cpu.amount != i64::MIN,
        existing matches Some(rq) ==> rq.net_amount.amount - net.amount != i64::MIN
            && rq.cpu_amount.amount - cpu.amount != i64::MIN,
    ensures
        r == spec_refund(from, net, cpu, existing, now, core),
{
    match existing {
        Some(rq) => {
            let n1 = match rq.net_amount.try_sub(net) {
                Err(e) => {
                    return Err(SystemError::Asset(e));
                },
                Ok(n1) => n1,
            };
            let c1 = match rq.cpu_amount.try_sub(cpu) {
                Err(e) => {
                    return Err(SystemError::Asset(e));
                },
                Ok(c1) => c1,
            };
            let (n2, net_left) = settle_exec(n1, net);
            let (c2, cpu_left) = settle_exec(c1, cpu);
            let request_time = if net.amount < 0 || cpu.amount < 0 {
                now
            } else {
                rq.request_time
            };
            let row = RefundRequest {
                owner: rq.owner,
                request_time,
                net_amount: n2,
                cpu_amount: c2,
            };
            if row.is_empty() {
                Ok((Some(RowWrite::Remove), false, net_left, cpu_left))
            } else {
                Ok((Some(RowWrite::Update { payer: Name(0), row }), true, net_left, cpu_left))
            }
        },
        None => {
            if net.amount < 0 || cpu.amount < 0 {
                let net_amount = if net.amount < 0 {
                    Asset { amount: -net.amount, symbol: net.symbol }
                } else {
                    Asset { amount: 0, symbol: core }
                };
                let cpu_amount = if cpu.amount < 0 {
                    Asset { amount: -cpu.amount, symbol: cpu.symbol }
                } else {
                    Asset { amount: 0, symbol: core }
                };
                let row = RefundRequest { owner: from, net_amount, cpu_amount, request_time: now };
                let net_left = if net.amount < 0 {
                    Asset { amount: 0, symbol: net.symbol }
                } else {
                    net
                };
                let cpu_left = if cpu.amount < 0 {
                    Asset { amount: 0, symbol: cpu.symbol }
                } else {
                    cpu
                };
                Ok((Some(RowWrite::Insert { payer: from, row }), true, net_left, cpu_left))
            } else {
                Ok((None, false, net, cpu))
            }
        },
    }
}

/// What a change of stake does, for the host to carry out.
#[derive(Debug, Clone, Copy, PartialEq, Eq, Structural)]
pub struct ChangeBwPlan {
    /// The account whose stake changes: the receiver when the stake is given away.
    pub staker: Name,
    /// The change to the delegation row of `staker` for the receiver.
    pub delegated: Option<RowWrite<DelegatedBandwidth>>,
    /// The change to the receiver's totals row.
    pub totals: Option<RowWrite<UserResources>>,
    /// The resource limits to set for the receiver.
    pub limits: Option<ResourceLimits>,
    /// The change to the refund row of `staker`.
    pub refund: Option<RowWrite<RefundRequest>>,
    /// Whether to schedule the deferred refund of `staker`.
    pub schedule_refund: bool,
    /// Tokens to move from the paying account to the stake account.
    pub stake_transfer: Option<Asset>,
    /// The change to the voting stake of `staker`.
    pub voting_delta: Asset,
}

/// The outcome of changing the stake that `source` delegates to `receiver` by
/// the given deltas.
pub open spec fn spec_changebw(
    source: Name,
    receiver: Name,
    net: Asset,
    cpu: Asset,
    transfer: bool,
    authorized: bool,
    delegated: Option<DelegatedBandwidth>,
    totals: Option<UserResources>,
    flags: Option<u32>,
    limits: ResourceLimits,
    refund: Option<RefundRequest>,
    now: TimePointSec,
    core: Symbol,
) -> Result<ChangeBwPlan, SystemError> {
    if !authorized {
        Err(SystemError::MissingAuth(source))
    } else {
        match spec_check_deltas(net, cpu) {
            Err(e) => Err(e),
            Ok(sum) => {
                let from = if transfer {
                    receiver
                } else {
                    source
                };
                match spec_delegated(from, receiver, net, cpu, delegated) {
                    Err(e) => Err(e),
                    Ok(dw) => match spec_totals(from, receiver, net, cpu, totals, flags, limits) {
                        Err(e) => Err(e),
                        Ok((tw, new_limits)) => if source.0 == STAKE_ACCOUNT {
                            Ok(
                                ChangeBwPlan {
                                    staker: from,
                                    delegated: dw,
                                    totals: tw,
                                    limits: new_limits,
                                    refund: None,
                                    schedule_refund: false,
                                    stake_transfer: None,
                                    voting_delta: sum,
                                },
                            )
                        } else {
                            let undelegating = net.amount + cpu.amount < 0;
                            let to_self = !transfer && from == receiver;
                            match (if to_self || undelegating {
                                spec_refund(from, net, cpu, refund, now, core)
                            } else {
                                Ok((None, false, net, cpu))
                            }) {
                                Err(e) => Err(e),
                                Ok((rw, schedule, net_left, cpu_left)) => match spec_try_add(
                                    net_left,
                                    cpu_left,
                                ) {
                                    Err(e) => Err(SystemError::Asset(e)),
                                    Ok(amount) => Ok(
                                        ChangeBwPlan {
                                            staker: from,
                                            delegated: dw,
                                            totals: tw,
                                            limits: new_limits,
                                            refund: rw,
                                            schedule_refund: schedule,
                                            stake_transfer: if amount.amount > 0 {
                                                Some(amount)
                                            } else {
                                                None
                                            },
                                            voting_delta: sum,
                                        },
                                    ),
                                },
                            }
                        },
                    },
                }
            },
        }
    }
}

/// Changes the stake that `source` delegates to `receiver` by the given
/// deltas (negative to undelegate); with `transfer` the stake is given to the
/// receiver. The arguments after `authorized` (whether `source` signed) are
/// what the tables and the host hold: the delegation row, the receiver's
/// totals row, the flags of its voter row, its current resource limits, the
/// refund row of the staker, the current time and the core symbol.
pub fn changebw(
    source: Name,
    receiver: Name,
    net: Asset,
    cpu: Asset,
    transfer: bool,
    authorized: bool,
    delegated: Option<DelegatedBandwidth>,
    totals: Option<UserResources>,
    flags: Option<u32>,
    limits: ResourceLimits,
    refund: Option<RefundRequest>,
    now: TimePointSec,
    core: Symbol,
) -> (r: Result<ChangeBwPlan, SystemError>)
    requires
        net.amount != i64::MIN,
        cpu.amount != i64::MIN,
        gift_needed(flags) ==> (totals matches Some(t) ==> t.ram_bytes + RAM_GIFT_BYTES <= i64::MAX),
        refund matches Some(rq) ==> rq.net_amount.amount - net.amount != i64::MIN
            && rq.cpu_amount.amount - cpu.amount != i64::MIN,
    ensures
        r == spec_changebw(
            source,
            receiver,
            net,
            cpu,
            transfer,
            authorized,
            delegated,
            totals,
            flags,
            limits,
            refund,
            now,
            core,
        ),
{
    if !authorized {
        return Err(SystemError::MissingAuth(source));
    }
    let sum = match check_deltas(net, cpu) {
        Err(e) => {
            return Err(e);
        },
        Ok(s) => s,
    };
    let from = if transfer {
        receiver
    } else {
        source
    };
    let dw = match delegated_change(from, receiver, net, cpu, delegated) {
        Err(e) => {
            return Err(e);
        },
        Ok(w) => w,
    };
    let (tw, new_limits) = match totals_change(from, receiver, net, cpu, totals, flags, limits) {
        Err(e) => {
            return Err(e);
        },
        Ok(t) => t,
    };
    if source.0 == STAKE_ACCOUNT {
        return Ok(
            ChangeBwPlan {
                staker: from,
                delegated: dw,
                totals: tw,
                limits: new_limits,
                refund: None,
                schedule_refund: false,
                stake_transfer: None,
                voting_delta: sum,
            },
        );
    }
    let undelegating = (net.amount as i128) + (cpu.amount as i128) < 0;
    let to_self = !transfer && from == receiver;
    let step = if to_self || undelegating {
        refund_change(from, net, cpu, refund, now, core)
    } else {
        Ok((None, false, net, cpu))
    };
    let (rw, schedule, net_left, cpu_left) = match step {
        Err(e) => {
            return Err(e);
        },
        Ok(s) => s,
    };
    let amount = match net_left.try_add(cpu_left) {
        Err(e) => {
            return Err(SystemError::Asset(e));
        },
        Ok(a) => a,
    };
    let stake_transfer = if amount.amount > 0 {
        Some(amount)
    } else {
        None
    };
    Ok(
        ChangeBwPlan {
            staker: from,
            delegated: dw,
            totals: tw,
            limits: new_limits,
            refund: rw,
            schedule_refund: schedule,
            stake_transfer,
            voting_delta: sum,
        },
    )
}


/// Whether `a` is at least `b`; assets of different symbols cannot be compared.
pub open spec fn spec_asset_ge(a: Asset, b: Asset) -> Result<bool, SystemError> {
    if a.symbol != b.symbol {
        Err(SystemError::AssetCompareMismatch)
    } else {
        Ok(a.amount >= b.amount)
    }
}

/// Whether `a` is at least `b`, comparing assets of one symbol.
pub fn asset_ge(a: Asset, b: Asset) -> (r: Result<bool, SystemError>)
    ensures
        r == spec_asset_ge(a, b),
{
    if a.symbol != b.symbol {
        Err(SystemError::AssetCompareMismatch)
    } else {
        Ok(a.amount >= b.amount)
    }
}

/// The checks that come before a delegation: both quantities are of the core
/// symbol and not negative, together positive, and no transfer to oneself.
pub open spec fn spec_delegate_checks(
    from: Name,
    receiver: Name,
    net: Asset,
    cpu: Asset,
    transfer: bool,
    core: Symbol,
) -> Result<(), SystemError> {
    let zero = Asset { amount: 0, symbol: core };
    match spec_asset_ge(cpu, zero) {
        Err(e) => Err(e),
        Ok(false) => Err(SystemError::MustStakePositive),
        Ok(true) => match spec_asset_ge(net, zero) {
            Err(e) => Err(e),
            Ok(false) => Err(SystemError::MustStakePositive),
            Ok(true) => if net.amount + cpu.amount <= 0 {
                Err(SystemError::MustStakePositive)
            } else if transfer && from == receiver {
                Err(SystemError::TransferToSelf)
            } else {
                Ok(())
            },
        },
    }
}

/// Stakes tokens of `from` for the resources of `receiver`, or gives them to
/// it with `transfer`; the other arguments are those of `changebw`.
pub fn delegatebw(
    from: Name,
    receiver: Name,
    net: Asset,
    cpu: Asset,
    transfer: bool,
    authorized: bool,
    delegated: Option<DelegatedBandwidth>,
    totals: Option<UserResources>,
    flags: Option<u32>,
    limits: ResourceLimits,
    refund: Option<RefundRequest>,
    now: TimePointSec,
    core: Symbol,
) -> (r: Result<ChangeBwPlan, SystemError>)
    requires
        gift_needed(flags) ==> (totals matches Some(t) ==> t.ram_bytes + RAM_GIFT_BYTES <= i64::MAX),
        refund matches Some(rq) ==> rq.net_amount.amount - net.amount != i64::MIN
            && rq.cpu_amount.amount - cpu.amount != i64::MIN,
    ensures
        r == match spec_delegate_checks(from, receiver, net, cpu, transfer, core) {
            Err(e) => Err(e),
            Ok(()) => spec_changebw(
                from,
                receiver,
                net,
                cpu,
                transfer,
                authorized,
                delegated,
                totals,
                flags,
                limits,
                refund,
                now,
                core,
            ),
        },
{
    let zero = Asset::new(0, core);
    match asset_ge(cpu, zero) {
        Err(e) => {
            return Err(e);
        },
        Ok(false) => {
            return Err(SystemError::MustStakePositive);
        },
        Ok(true) => {},
    }
    match asset_ge(net, zero) {
        Err(e) => {
            return Err(e);
        },
        Ok(false) => {
            return Err(SystemError::MustStakePositive);
        },
        Ok(true) => {},
    }
    if (net.amount as i128) + (cpu.amount as i128) <= 0 {
        return Err(SystemError::MustStakePositive);
    }
    if transfer && from == receiver {
        return Err(SystemError::TransferToSelf);
    }
    changebw(from, receiver, net, cpu, transfer, authorized, delegated, totals, flags, limits, refund, now, core)
}

/// The checks that come before an undelegation: both quantities are of the
/// core symbol and not negative, together positive, and the chain is activated.
pub open spec fn spec_undelegate_checks(net: Asset, cpu: Asset, activated: bool, core: Symbol) -> Result<
    (),
    SystemError,
> {
    let zero = Asset { amount: 0, symbol: core };
    match spec_asset_ge(net, zero) {
        Err(e) => Err(e),
        Ok(false) => Err(SystemError::MustUnstakePositive),
        Ok(true) => match spec_asset_ge(cpu, zero) {
            Err(e) => Err(e),
            Ok(false) => Err(SystemError::MustUnstakePositive),
            Ok(true) => if cpu.amount + net.amount <= 0 {
                Err(SystemError::MustUnstakePositive)
            } else if !activated {
                Err(SystemError::NotActivated)
            } else {
                Ok(())
            },
        },
    }
}

/// Unstakes tokens that `from` delegated to `receiver`; `activated` says
/// whether the chain has been activated. The other arguments are those of
/// `changebw`, which is called with the negated quantities.
pub fn undelegatebw(
    from: Name,
    receiver: Name,
    net: Asset,
    cpu: Asset,
    activated: bool,
    authorized: bool,
    delegated: Option<DelegatedBandwidth>,
    totals: Option<UserResources>,
    flags: Option<u32>,
    limits: ResourceLimits,
    refund: Option<RefundRequest>,
    now: TimePointSec,
    core: Symbol,
) -> (r: Result<ChangeBwPlan, SystemError>)
    requires
        gift_needed(flags) ==> (totals matches Some(t) ==> t.ram_bytes + RAM_GIFT_BYTES <= i64::MAX),
        refund matches Some(rq) ==> rq.net_amount.amount + net.amount != i64::MIN
            && rq.cpu_amount.amount + cpu.amount != i64::MIN,
    ensures
        r == match spec_undelegate_checks(net, cpu, activated, core) {
            Err(e) => Err(e),
            Ok(()) => spec_changebw(
                from,
                receiver,
                Asset { amount: (-net.amount) as i64, symbol: net.symbol },
                Asset { amount: (-cpu.amount) as i64, symbol: cpu.symbol },
                false,
                authorized,
                delegated,
                totals,
                flags,
                limits,
                refund,
                now,
                core,
            ),
        },
{
    let zero = Asset::new(0, core);
    match asset_ge(net, zero) {
        Err(e) => {
            return Err(e);
        },
        Ok(false) => {
            return Err(SystemError::MustUnstakePositive);
        },
        Ok(true) => {},
    }
    match asset_ge(cpu, zero) {
        Err(e) => {
            return Err(e);
        },
        Ok(false) => {
            return Err(SystemError::MustUnstakePositive);
        },
        Ok(true) => {},
    }
    if (cpu.amount as i128) + (net.amount as i128) <= 0 {
        return Err(SystemError::MustUnstakePositive);
    }
    if !activated {
        return Err(SystemError::NotActivated);
    }
    let neg_net = Asset { amount: -net.amount, symbol: net.symbol };
    let neg_cpu = Asset { amount: -cpu.amount, symbol: cpu.symbol };
    changebw(from, receiver, neg_net, neg_cpu, false, authorized, delegated, totals, flags, limits, refund, now, core)
}

/// The outcome of claiming a refund: the network amount goes from the stake
/// account back to the owner, and the refund row is removed.
pub open spec fn spec_refund_claim(
    owner: Name,
    authorized: bool,
    existing: Option<RefundRequest>,
    now: TimePointSec,
) -> Result<(Name, Asset), SystemError> {
    if !authorized {
        Err(SystemError::MissingAuth(owner))
    } else {
        match existing {
            None => Err(SystemError::RefundNotFound),
            Some(r) => if r.request_time.utc_seconds > now.utc_seconds {
                Err(SystemError::RefundNotAvailable)
            } else {
                Ok((r.owner, r.net_amount))
            },
        }
    }
}

/// Pays out a refund whose time has come: the account to pay and the amount
/// to transfer from the stake account; the refund row is then removed.
pub fn refund(owner: Name, authorized: bool, existing: Option<RefundRequest>, now: TimePointSec) -> (r:
    Result<(Name, Asset), SystemError>)
    ensures
        r == spec_refund_claim(owner, authorized, existing, now),
{
    if !authorized {
        return Err(SystemError::MissingAuth(owner));
    }
    match existing {
        None => Err(SystemError::RefundNotFound),
        Some(r) => {
            if r.request_time.utc_seconds > now.utc_seconds {
                Err(SystemError::RefundNotAvailable)
            } else {
                Ok((r.owner, r.net_amount))
            }
        },
    }
}

/// The largest RAM size that may be set: 2^50 bytes.
pub const MAX_RAM_SIZE: u64 = 1125899906842624u64;

/// The outcome of raising the RAM size to `new_size`: the new size and the
/// RAM market's new base balance.
pub open spec fn spec_setram(
    new_size: u64,
    authorized: bool,
    self_account: Name,
    max_ram_size: u64,
    reserved: u64,
    base: Asset,
) -> Result<(u64, Asset), SystemError> {
    if !authorized {
        Err(SystemError::MissingAuth(self_account))
    } else if max_ram_size >= new_size {
        Err(SystemError::RamOnlyIncrease)
    } else if new_size >= MAX_RAM_SIZE {
        Err(SystemError::RamUnrealistic)
    } else if new_size <= reserved {
        Err(SystemError::RamBelowReserved)
    } else {
        Ok((new_size, Asset { amount: (base.amount + (new_size - max_ram_size)) as i64, ..base }))
    }
}

/// Raises the RAM size, growing the RAM market's base balance by the same
/// number of bytes.
pub fn setram(
    new_size: u64,
    authorized: bool,
    self_account: Name,
    max_ram_size: u64,
    reserved: u64,
    base: Asset,
) -> (r: Result<(u64, Asset), SystemError>)
    requires
        authorized && max_ram_size < new_size < MAX_RAM_SIZE && reserved < new_size ==> base.amount
            + (new_size - max_ram_size) <= i64::MAX,
    ensures
        r == spec_setram(new_size, authorized, self_account, max_ram_size, reserved, base),
{
    if !authorized {
        return Err(SystemError::MissingAuth(self_account));
    }
    if max_ram_size >= new_size {
        return Err(SystemError::RamOnlyIncrease);
    }
    if new_size >= MAX_RAM_SIZE {
        return Err(SystemError::RamUnrealistic);
    }
    if new_size <= reserved {
        return Err(SystemError::RamBelowReserved);
    }
    let delta = new_size as i64 - max_ram_size as i64;
    Ok((new_size, Asset { amount: base.amount + delta, symbol: base.symbol }))
}

/// The state the growth of RAM touches.
#[derive(Debug, Clone, Copy, PartialEq, Eq, Structural)]
pub struct RamSupply {
    pub max_ram_size: u64,
    pub last_ram_increase: BlockTimestamp,
    pub base: Asset,
}

/// RAM grows by `new_ram_per_block` bytes for every block since it last grew.
pub open spec fn spec_update_ram_supply(cbt: BlockTimestamp, new_ram_per_block: u16, s: RamSupply) -> RamSupply {
    if cbt.slot <= s.last_ram_increase.slot {
        s
    } else {
        let new_ram = (cbt.slot - s.last_ram_increase.slot) * new_ram_per_block;
        RamSupply {
            max_ram_size: (s.max_ram_size + new_ram) as u64,
            last_ram_increase: cbt,
            base: Asset { amount: (s.base.amount + new_ram) as i64, ..s.base },
        }
    }
}

/// Grows the RAM supply up to the current block time `cbt`.
pub fn update_ram_supply(cbt: BlockTimestamp, new_ram_per_block: u16, s: RamSupply) -> (r: RamSupply)
    requires
        cbt.slot > s.last_ram_increase.slot ==> ({
            let new_ram = (cbt.slot - s.last_ram_increase.slot) * new_ram_per_block;
            &&& new_ram <= u32::MAX
            &&& s.max_ram_size + new_ram <= u64::MAX
            &&& s.base.amount + new_ram <= i64::MAX
        }),
    ensures
        r == spec_update_ram_supply(cbt, new_ram_per_block, s),
{
    if cbt.slot <= s.last_ram_increase.slot {
        return s;
    }
    let new_ram: u32 = (cbt.slot - s.last_ram_increase.slot) * (new_ram_per_block as u32);
    RamSupply {
        max_ram_size: s.max_ram_size + new_ram as u64,
        last_ram_increase: cbt,
        base: Asset { amount: s.base.amount + new_ram as i64, symbol: s.base.symbol },
    }
}

/// The fee for buying RAM with `quant`: half a percent, rounded up, and what is
/// left to buy with.
pub open spec fn spec_buyram_fee(quant: Asset, authorized: bool, payer: Name, core: Symbol) -> Result<
    (Asset, Asset),
    SystemError,
> {
    if !authorized {
        Err(SystemError::MissingAuth(payer))
    } else if quant.symbol != core {
        Err(SystemError::MustBuyWithCore)
    } else if quant.amount <= 0 {
        Err(SystemError::MustPurchasePositive)
    } else {
        let fee = (quant.amount + 199) / 200;
        Ok((Asset { amount: fee as i64, ..quant }, Asset { amount: (quant.amount - fee) as i64, ..quant }))
    }
}

/// Checks a purchase of RAM with `quant` and splits it into the fee and the
/// amount paid to the RAM account.
pub fn buyram_fee(quant: Asset, authorized: bool, payer: Name, core: Symbol) -> (r: Result<
    (Asset, Asset),
    SystemError,
>)
    ensures
        r == spec_buyram_fee(quant, authorized, payer, core),
{
    if !authorized {
        return Err(SystemError::MissingAuth(payer));
    }
    if quant.symbol != core {
        return Err(SystemError::MustBuyWithCore);
    }
    if quant.amount <= 0 {
        return Err(SystemError::MustPurchasePositive);
    }
    let fee = ((quant.amount as i128 + 199) / 200) as i64;
    Ok((Asset { amount: fee, symbol: quant.symbol }, Asset { amount: quant.amount - fee, symbol: quant.symbol }))
}

/// What buying RAM changes once the bytes are known.
#[derive(Debug, Clone, Copy, PartialEq, Eq, Structural)]
pub struct BuyRamPlan {
    pub total_ram_bytes_reserved: u64,
    pub total_ram_stake: i64,
    pub totals: RowWrite<UserResources>,
    pub limits: Option<ResourceLimits>,
}

/// The outcome of `bytes_out` bytes bought for `receiver` with `paid`.
pub open spec fn spec_buyram_settle(
    receiver: Name,
    bytes_out: i64,
    paid: Asset,
    totals: Option<UserResources>,
    flags: Option<u32>,
    limits: ResourceLimits,
    reserved: u64,
    ram_stake: i64,
    core: Symbol,
) -> Result<BuyRamPlan, SystemError> {
    if bytes_out <= 0 {
        Err(SystemError::MustReservePositive)
    } else {
        Ok(
            BuyRamPlan {
                total_ram_bytes_reserved: (reserved + bytes_out) as u64,
                total_ram_stake: (ram_stake + paid.amount) as i64,
                totals: match totals {
                    None => RowWrite::Insert {
                        payer: receiver,
                        row: UserResources {
                            owner: receiver,
                            net_weight: Asset { amount: 0, symbol: core },
                            cpu_weight: Asset { amount: 0, symbol: core },
                            ram_bytes: bytes_out,
                        },
                    },
                    Some(t) => RowWrite::Update {
                        payer: receiver,
                        row: UserResources { ram_bytes: (t.ram_bytes + bytes_out) as i64, ..t },
                    },
                },
                limits: if managed(flags, 1) {
                    None
                } else {
                    Some(ResourceLimits { ram_bytes: (limits.ram_bytes + RAM_GIFT_BYTES) as i64, ..limits })
                },
            },
        )
    }
}

/// Records `bytes_out` bytes of RAM bought for `receiver` with `paid`: the new
/// totals, the receiver's RAM, and its RAM limit unless it manages it by hand.
pub fn buyram_settle(
    receiver: Name,
    bytes_out: i64,
    paid: Asset,
    totals: Option<UserResources>,
    flags: Option<u32>,
    limits: ResourceLimits,
    reserved: u64,
    ram_stake: i64,
    core: Symbol,
) -> (r: Result<BuyRamPlan, SystemError>)
    requires
        bytes_out > 0 ==> reserved + bytes_out <= u64::MAX,
        bytes_out > 0 ==> ram_stake + paid.amount <= i64::MAX && ram_stake + paid.amount >= i64::MIN,
        bytes_out > 0 ==> (totals matches Some(t) ==> t.ram_bytes + bytes_out <= i64::MAX),
        limits.ram_bytes + RAM_GIFT_BYTES <= i64::MAX,
    ensures
        r == spec_buyram_settle(receiver, bytes_out, paid, totals, flags, limits, reserved, ram_stake, core),
{
    if bytes_out <= 0 {
        return Err(SystemError::MustReservePositive);
    }
    let w = match totals {
        None => RowWrite::Insert {
            payer: receiver,
            row: UserResources {
                owner: receiver,
                net_weight: Asset::new(0, core),
                cpu_weight: Asset::new(0, core),
                ram_bytes: bytes_out,
            },
        },
        Some(t) => RowWrite::Update {
            payer: receiver,
            row: UserResources {
                owner: t.owner,
                net_weight: t.net_weight,
                cpu_weight: t.cpu_weight,
                ram_bytes: t.ram_bytes + bytes_out,
            },
        },
    };
    let ram_managed = match flags {
        Some(f) => f & 1 != 0,
        None => false,
    };
    let new_limits = if ram_managed {
        None
    } else {
        Some(
            ResourceLimits {
                ram_bytes: limits.ram_bytes + RAM_GIFT_BYTES,
                net_weight: limits.net_weight,
                cpu_weight: limits.cpu_weight,
            },
        )
    };
    Ok(
        BuyRamPlan {
            total_ram_bytes_reserved: reserved + bytes_out as u64,
            total_ram_stake: ram_stake + paid.amount,
            totals: w,
            limits: new_limits,
        },
    )
}

/// The value of the account `proton`, which may create any name.
pub const PROTON_ACCOUNT: u64 = 12531717089343307776u64;

/// Some of the first twelve characters of the name is a dot: the name has a
/// dot or is shorter than twelve characters.
pub open spec fn has_dot_or_short(v: u64) -> bool {
    exists|i: int| 0 <= i < 12 && #[trigger] name_digit(v, i) == 0
}

/// The number of characters of a name, without its trailing dots.
pub open spec fn name_text_len(v: u64) -> int {
    trim_dots(spec_name_bytes(v)).len() as int
}

/// The outcome of `creator` creating the account `name`: its empty resources
/// row. Unless the creator is the contract or `proton`, a name with a dot or of
/// fewer than twelve characters may only be created by its suffix, and a name
/// needs at least four characters.
pub open spec fn spec_newaccount(creator: Name, name: Name, self_account: Name, core: Symbol) -> Result<
    UserResources,
    SystemError,
> {
    if creator != self_account && creator.0 != PROTON_ACCOUNT && has_dot_or_short(name.0) && (exists|
        r: u64,
    | is_name_suffix(name.0, r) && r != name.0 && creator.0 != r) {
        Err(SystemError::OnlySuffix)
    } else if creator != self_account && creator.0 != PROTON_ACCOUNT && name_text_len(name.0) <= 3 {
        Err(SystemError::MinLength)
    } else {
        Ok(
            UserResources {
                owner: name,
                net_weight: Asset { amount: 0, symbol: core },
                cpu_weight: Asset { amount: 0, symbol: core },
                ram_bytes: 0,
            },
        )
    }
}

/// Checks who may create the account `name`, and gives its resources row, to
/// be stored billed to the new account; its resource limits are then set to zero.
pub fn newaccount(creator: Name, name: Name, self_account: Name, core: Symbol) -> (r: Result<
    UserResources,
    SystemError,
>)
    ensures
        r == spec_newaccount(creator, name, self_account, core),
{
    if creator != self_account && creator.0 != PROTON_ACCOUNT {
        let v = name.0;
        let mut tmp: u64 = v >> 4u64;
        let mut has_dot = false;
        let mut k: u64 = 0;
        while k < 12
            invariant
                k <= 12,
                tmp == v >> ((4 + 5 * k) as u64),
                has_dot == exists|i: int| 11 - k < i < 12 && #[trigger] name_digit(v, i) == 0,
            decreases 12 - k,
        {
            let d = tmp & 0x1f;
            proof {
                let sh = (4 + 5 * k) as u64;
                let sh2 = (59 - 5 * (11 - k)) as u64;
                assert(sh == sh2);
                assert((v >> sh) >> 5u64 == v >> ((sh + 5) as u64)) by (bit_vector)
                    requires
                        sh < 60,
                ;
                assert(d == name_digit(v, 11 - k));
                if d == 0 {
                    assert(name_digit(v, 11 - k) == 0);
                }
            }
            has_dot = has_dot || d == 0;
            tmp = tmp >> 5u64;
            k = k + 1;
        }
        if has_dot {
            let suffix = name.suffix();
            if suffix != name && creator != suffix {
                return Err(SystemError::OnlySuffix);
            }
            proof {
                assert forall|r: u64| is_name_suffix(name.0, r) implies !(r != name.0 && creator.0 != r) by {
                    lemma_suffix_unique(name.0, r, suffix.0);
                }
            }
        }
        let text = name.to_string();
        if text.as_str().unicode_len() <= 3 {
            return Err(SystemError::MinLength);
        }
    }
    Ok(
        UserResources {
            owner: name,
            net_weight: Asset::new(0, core),
            cpu_weight: Asset::new(0, core),
            ram_bytes: 0,
        },
    )
}

/// The stake a voter has for voting after `total_update` is added: a new voter
/// starts from zero. It may not become negative.
pub open spec fn spec_update_voting_power(total_update: Asset, staked: Option<i64>) -> Result<
    i64,
    SystemError,
> {
    let s = match staked {
        Some(s) => s + total_update.amount,
        None => total_update.amount as int,
    };
    if s < 0 {
        Err(SystemError::NegativeVoteStake)
    } else {
        Ok(s as i64)
    }
}

/// Updates the voting stake of a voter, given its current stake (none for a
/// voter not yet known, whose row is then created). When the voter votes for
/// producers or through a proxy, its votes are recounted afterwards.
pub fn update_voting_power(total_update: Asset, staked: Option<i64>) -> (r: Result<i64, SystemError>)
    requires
        staked matches Some(s) ==> i64::MIN <= s + total_update.amount <= i64::MAX,
    ensures
        r == spec_update_voting_power(total_update, staked),
{
    let s = match staked {
        Some(s) => s + total_update.amount,
        None => total_update.amount,
    };
    if s < 0 {
        Err(SystemError::NegativeVoteStake)
    } else {
        Ok(s)
    }
}

/// What registering or unregistering a proxy does.
#[derive(Debug, Clone, Copy, PartialEq, Eq, Structural)]
pub enum ProxyChange {
    /// The voter row exists: its proxy flag is set to the value and its
    /// weight propagated.
    Update(bool),
    /// A voter row is created with the proxy flag set to the value.
    Create(bool),
}

/// The outcome of `proxy` registering (or unregistering) as a proxy, given the
/// proxy flag of its voter row if it has one.
pub open spec fn spec_regproxy(proxy: Name, is_proxy: bool, authorized: bool, current: Option<bool>) -> Result<
    ProxyChange,
    SystemError,
> {
    if !authorized {
        Err(SystemError::MissingAuth(proxy))
    } else {
        match current {
            Some(c) => if is_proxy == c {
                Err(SystemError::NoEffect)
            } else if is_proxy && c {
                Err(SystemError::ProxyNotAllowed)
            } else {
                Ok(ProxyChange::Update(is_proxy))
            },
            None => Ok(ProxyChange::Create(is_proxy)),
        }
    }
}

/// Registers or unregisters `proxy` as a proxy for other voters.
pub fn regproxy(proxy: Name, is_proxy: bool, authorized: bool, current: Option<bool>) -> (r: Result<
    ProxyChange,
    SystemError,
>)
    ensures
        r == spec_regproxy(proxy, is_proxy, authorized, current),
{
    if !authorized {
        return Err(SystemError::MissingAuth(proxy));
    }
    match current {
        Some(c) => {
            if is_proxy == c {
                return Err(SystemError::NoEffect);
            }
            if is_proxy && c {
                return Err(SystemError::ProxyNotAllowed);
            }
            Ok(ProxyChange::Update(is_proxy))
        },
        None => Ok(ProxyChange::Create(is_proxy)),
    }
}

/// The longest producer URL, exclusive.
pub const MAX_URL_LEN: usize = 512;

/// Checks a producer registration with a single key.
pub fn regproducer(producer: Name, authorized: bool, url_len: usize) -> (r: Result<(), SystemError>)
    ensures
        r == if !authorized {
            Err(SystemError::MissingAuth(producer))
        } else if url_len >= MAX_URL_LEN {
            Err(SystemError::UrlTooLong)
        } else {
            Ok(())
        },
{
    if !authorized {
        return Err(SystemError::MissingAuth(producer));
    }
    if url_len >= MAX_URL_LEN {
        return Err(SystemError::UrlTooLong);
    }
    Ok(())
}

/// Checks a producer registration with a signing authority, which must be valid.
pub fn regproducer2(
    producer: Name,
    authorized: bool,
    url_len: usize,
    producer_authority: &BlockSigningAuthority,
) -> (r: Result<(), SystemError>)
    ensures
        r == if !authorized {
            Err(SystemError::MissingAuth(producer))
        } else if url_len >= MAX_URL_LEN {
            Err(SystemError::UrlTooLong)
        } else if !spec_authority_valid(producer_authority.threshold, producer_authority.keys@) {
            Err(SystemError::InvalidAuthority)
        } else {
            Ok(())
        },
{
    if !authorized {
        return Err(SystemError::MissingAuth(producer));
    }
    if url_len >= MAX_URL_LEN {
        return Err(SystemError::UrlTooLong);
    }
    if !producer_authority.is_valid() {
        return Err(SystemError::InvalidAuthority);
    }
    Ok(())
}

/// The key a producer row records for a signing authority: its only key, or
/// the zero key when it has several or none.
pub fn signing_key(producer_authority: &BlockSigningAuthority) -> (r: PublicKey)
    ensures
        producer_authority.keys@.len() == 1 ==> r.0.0@ == producer_authority.keys@[0].key.0.0@,
        producer_authority.keys@.len() != 1 ==> r.0.0@ == Seq::new(34, |i: int| 0u8),
{
    if producer_authority.keys.len() == 1 {
        producer_authority.keys[0].key
    } else {
        PublicKey::default()
    }
}

/// Checks the removal of a producer, which must be registered; its row is
/// then deactivated.
pub fn unregprod(producer: Name, authorized: bool, registered: bool) -> (r: Result<(), SystemError>)
    ensures
        r == if !authorized {
            Err(SystemError::MissingAuth(producer))
        } else if !registered {
            Err(SystemError::ProducerNotFound)
        } else {
            Ok(())
        },
{
    if !authorized {
        return Err(SystemError::MissingAuth(producer));
    }
    if !registered {
        return Err(SystemError::ProducerNotFound);
    }
    Ok(())
}

/// Records the time of the block being produced.
pub fn onblock(authorized: bool, self_account: Name, header: &BlockHeader) -> (r: Result<
    BlockTimestamp,
    SystemError,
>)
    ensures
        r == if !authorized {
            Err(SystemError::MissingAuth(self_account))
        } else {
            Ok(header.timestamp)
        },
{
    if !authorized {
        return Err(SystemError::MissingAuth(self_account));
    }
    Ok(header.timestamp)
}

/// The outcome of initializing the system contract with the core symbol: the
/// starting RAM and core balances of the RAM market.
pub open spec fn spec_init(
    version: u8,
    core: Symbol,
    authorized: bool,
    self_account: Name,
    market_exists: bool,
    supply: Option<Asset>,
    free_ram: u64,
) -> Result<(i64, i64), SystemError> {
    if !authorized {
        Err(SystemError::MissingAuth(self_account))
    } else if version != 0 {
        Err(SystemError::UnsupportedVersion)
    } else if market_exists {
        Err(SystemError::AlreadyInitialized)
    } else {
        match supply {
            None => Err(SystemError::SymbolMissing),
            Some(s) => if s.symbol != core {
                Err(SystemError::CorePrecisionMismatch)
            } else if s.amount <= 0 {
                Err(SystemError::SupplyNotPositive)
            } else {
                Ok((free_ram as i64, (s.amount / 1000) as i64))
            },
        }
    }
}

/// The value of the token contract's account, `pulse.token`.
pub const TOKEN_ACCOUNT: u64 = 12584048032615671296u64;

/// The value of the REX account, `pulse.rex`.
pub const REX_ACCOUNT: u64 = 12584048031380799488u64;

/// The value of the permission name `active`.
pub const ACTIVE_PERMISSION: u64 = 3617214756542218240u64;

/// The value of the token action name `open`.
pub const OPEN_ACTION: u64 = 11913481165836648448u64;

/// The symbol of the RAM market's shares, `4,RAMCORE`.
pub const RAMCORE_SYMBOL: u64 = 4995142087184830980u64;

/// The symbol in which RAM is counted, `0,RAM`.
pub const RAM_SYMBOL: u64 = 1296126464u64;

/// The supply of RAM market shares the market starts with.
pub const RAMCORE_SUPPLY: i64 = 100000000000000i64;

/// The system account's own producer row, as initialization creates it; its
/// vote total, which starts at zero, is kept as a float by the host side.
#[derive(Debug, Clone)]
pub struct InitProducer {
    pub owner: Name,
    pub producer_key: PublicKey,
    pub is_active: bool,
    pub url: String,
    pub unpaid_blocks: u32,
    pub last_claim_time: TimePoint,
    pub location: u16,
}

/// What initializing the system contract does: open the RAM market with its
/// share supply and its RAM (base) and core (quote) balances, each connector
/// weighing one half; register the system account as a producer; and send the
/// token contract the `open` action for the REX account's core balance.
#[derive(Debug, Clone)]
pub struct InitPlan {
    pub ramcore_supply: Asset,
    pub base: Asset,
    pub quote: Asset,
    pub producer: InitProducer,
    pub open: Action<OpenArgs>,
}

/// The key of the system account's own producer row.
pub open spec fn init_producer_key() -> Seq<u8> {
    seq![
        0u8, 3, 12, 214, 195, 138, 50, 120, 73, 105, 11, 101, 80, 3, 197, 12, 167, 129, 208, 247,
        2, 12, 193, 126, 41, 66, 141, 239, 25, 163, 66, 69, 137, 97,
    ]
}

/// `p` is the plan of a successful initialization: the checks of `spec_init`
/// passed and gave the two starting balances.
pub open spec fn init_plan_matches(
    p: InitPlan,
    core: Symbol,
    self_account: Name,
    now: TimePoint,
    balances: (i64, i64),
) -> bool {
    &&& p.ramcore_supply == (Asset { amount: RAMCORE_SUPPLY, symbol: Symbol(RAMCORE_SYMBOL) })
    &&& p.base == (Asset { amount: balances.0, symbol: Symbol(RAM_SYMBOL) })
    &&& p.quote == (Asset { amount: balances.1, symbol: core })
    &&& p.producer.owner == self_account
    &&& p.producer.producer_key.0.0@ == init_producer_key()
    &&& p.producer.is_active
    &&& p.producer.url@ == "https://metalblockchain.org"@
    &&& p.producer.unpaid_blocks == 0
    &&& p.producer.last_claim_time == now
    &&& p.producer.location == 840
    &&& p.open.account == Name(TOKEN_ACCOUNT)
    &&& p.open.name == Name(OPEN_ACTION)
    &&& p.open.authorization@ == seq![
        (PermissionLevel { actor: self_account, permission: Name(ACTIVE_PERMISSION) }),
    ]
    &&& p.open.data == (OpenArgs { owner: Name(REX_ACCOUNT), symbol: core, ram_payer: self_account })
}

/// Initializes the system contract: `supply` is the supply of the core token,
/// `free_ram` the RAM not yet reserved, and `now` the current time. Gives what
/// is to be stored and sent, or why initialization is refused.
pub fn init(
    version: u8,
    core: Symbol,
    authorized: bool,
    self_account: Name,
    market_exists: bool,
    supply: Option<Asset>,
    free_ram: u64,
    now: TimePoint,
) -> (r: Result<InitPlan, SystemError>)
    ensures
        match r {
            Ok(p) => spec_init(version, core, authorized, self_account, market_exists, supply, free_ram)
                matches Ok(balances) && init_plan_matches(p, core, self_account, now, balances),
            Err(e) => spec_init(version, core, authorized, self_account, market_exists, supply, free_ram)
                == Err::<(i64, i64), SystemError>(e),
        },
{
    if !authorized {
        return Err(SystemError::MissingAuth(self_account));
    }
    if version != 0 {
        return Err(SystemError::UnsupportedVersion);
    }
    if market_exists {
        return Err(SystemError::AlreadyInitialized);
    }
    let s = match supply {
        None => {
            return Err(SystemError::SymbolMissing);
        },
        Some(s) => s,
    };
    if s.symbol != core {
        return Err(SystemError::CorePrecisionMismatch);
    }
    if s.amount <= 0 {
        return Err(SystemError::SupplyNotPositive);
    }
    let key: [u8; 34] = [
        0u8, 3, 12, 214, 195, 138, 50, 120, 73, 105, 11, 101, 80, 3, 197, 12, 167, 129, 208, 247,
        2, 12, 193, 126, 41, 66, 141, 239, 25, 163, 66, 69, 137, 97,
    ];
    assert(key@ =~= init_producer_key());
    let url_text = "https://metalblockchain.org";
    let url = url_text.to_owned();
    let producer = InitProducer {
        owner: self_account,
        producer_key: PublicKey(FixedBytes(key)),
        is_active: true,
        url,
        unpaid_blocks: 0,
        last_claim_time: now,
        location: 840,
    };
    let mut authorization: Vec<PermissionLevel> = Vec::new();
    authorization.push(PermissionLevel { actor: self_account, permission: Name(ACTIVE_PERMISSION) });
    let open = Action {
        account: Name(TOKEN_ACCOUNT),
        name: Name(OPEN_ACTION),
        authorization,
        data: OpenArgs { owner: Name(REX_ACCOUNT), symbol: core, ram_payer: self_account },
    };
    assert(open.authorization@ =~= seq![
        (PermissionLevel { actor: self_account, permission: Name(ACTIVE_PERMISSION) }),
    ]);
    Ok(InitPlan {
        ramcore_supply: Asset { amount: RAMCORE_SUPPLY, symbol: Symbol(RAMCORE_SYMBOL) },
        base: Asset { amount: free_ram as i64, symbol: Symbol(RAM_SYMBOL) },
        quote: Asset { amount: s.amount / 1000, symbol: core },
        producer,
        open,
    })
}

/// The value of the default system account `pulse`.
pub const SYSTEM_ACCOUNT: u64 = 12584048018849792000u64;

/// The account whose RAM market gives the core symbol: the given one, or `pulse`.
pub fn core_symbol_account(system_account: Option<Name>) -> (r: Name)
    ensures
        r == match system_account {
            Some(a) => a,
            None => Name(SYSTEM_ACCOUNT),
        },
{
    match system_account {
        Some(a) => a,
        None => Name(SYSTEM_ACCOUNT),
    }
}

/// The core symbol: the symbol of the RAM market's quote balance, which
/// exists once the contract is initialized.
pub fn core_symbol(quote: Option<Asset>) -> (r: Result<Symbol, SystemError>)
    ensures
        r == match quote {
            Some(q) => Ok(q.symbol),
            None => Err(SystemError::NotInitialized),
        },
{
    match quote {
        Some(q) => Ok(q.symbol),
        None => Err(SystemError::NotInitialized),
    }
}

/// Which way a conversion in the RAM market goes.
#[derive(Debug, Clone, Copy, PartialEq, Eq, Structural)]
pub enum Conversion {
    /// Selling the base (RAM) for the quote (core token).
    BaseToQuote,
    /// Selling the quote (core token) for the base (RAM).
    QuoteToBase,
}

/// The direction of converting an asset of symbol `sell` into symbol `to`, in
/// a market whose balances have symbols `base` and `quote`.
pub open spec fn spec_conversion(sell: Symbol, to: Symbol, base: Symbol, quote: Symbol) -> Result<
    Conversion,
    SystemError,
> {
    if sell == to {
        Err(SystemError::SameSymbolConversion)
    } else if sell == base && to == quote {
        Ok(Conversion::BaseToQuote)
    } else if sell == quote && to == base {
        Ok(Conversion::QuoteToBase)
    } else {
        Err(SystemError::InvalidConversion)
    }
}

/// Decides which way a conversion goes; the amount received is then given by
/// the market's Bancor formula on the two balances, in that order.
pub fn conversion(sell: Symbol, to: Symbol, base: Symbol, quote: Symbol) -> (r: Result<
    Conversion,
    SystemError,
>)
    ensures
        r == spec_conversion(sell, to, base, quote),
{
    if sell == to {
        Err(SystemError::SameSymbolConversion)
    } else if sell == base && to == quote {
        Ok(Conversion::BaseToQuote)
    } else if sell == quote && to == base {
        Ok(Conversion::QuoteToBase)
    } else {
        Err(SystemError::InvalidConversion)
    }
}

/// The market's balances after selling `from` for `out_amount` of `to`: the
/// sold balance grows by `from` and the other shrinks by what is paid out.
pub open spec fn spec_apply_conversion(dir: Conversion, from: Asset, to: Symbol, out_amount: i64, base: Asset, quote: Asset) -> Result<
    (Asset, Asset, Asset),
    SystemError,
> {
    let out = Asset { amount: out_amount, symbol: to };
    match dir {
        Conversion::BaseToQuote => match spec_try_add(base, from) {
            Err(e) => Err(SystemError::Asset(e)),
            Ok(b) => match spec_try_sub(quote, out) {
                Err(e) => Err(SystemError::Asset(e)),
                Ok(q) => Ok((b, q, out)),
            },
        },
        Conversion::QuoteToBase => match spec_try_add(quote, from) {
            Err(e) => Err(SystemError::Asset(e)),
            Ok(q) => match spec_try_sub(base, out) {
                Err(e) => Err(SystemError::Asset(e)),
                Ok(b) => Ok((b, q, out)),
            },
        },
    }
}

/// Applies a conversion to the market's balances: the new base and quote
/// balances and the asset paid out.
pub fn apply_conversion(dir: Conversion, from: Asset, to: Symbol, out_amount: i64, base: Asset, quote: Asset) -> (r: Result<
    (Asset, Asset, Asset),
    SystemError,
>)
    ensures
        r == spec_apply_conversion(dir, from, to, out_amount, base, quote),
{
    let out = Asset::new(out_amount, to);
    match dir {
        Conversion::BaseToQuote => {
            let b = match base.try_add(from) {
                Err(e) => {
                    return Err(SystemError::Asset(e));
                },
                Ok(b) => b,
            };
            match quote.try_sub(out) {
                Err(e) => Err(SystemError::Asset(e)),
                Ok(q) => Ok((b, q, out)),
            }
        },
        Conversion::QuoteToBase => {
            let q = match quote.try_add(from) {
                Err(e) => {
                    return Err(SystemError::Asset(e));
                },
                Ok(q) => q,
            };
            match base.try_sub(out) {
                Err(e) => Err(SystemError::Asset(e)),
                Ok(b) => Ok((b, q, out)),
            }
        },
    }
}

/// The most producers one vote may name.
pub const MAX_PRODUCER_VOTES: usize = 30;

/// The stake that must take part in voting before the chain is activated.
pub const MIN_ACTIVATED_STAKE: i64 = 1500000000000i64;

/// The producers are named in strictly increasing order, so each once.
pub open spec fn names_sorted(s: Seq<Name>) -> bool {
    forall|i: int, j: int| 0 <= i < j < s.len() ==> (#[trigger] s[i]).0 < (#[trigger] s[j]).0
}

/// What a vote may name: either a proxy other than the voter and no producers,
/// or no proxy and at most thirty producers in strictly increasing order.
pub open spec fn spec_vote_targets(voter: Name, proxy: Name, producers: Seq<Name>) -> Result<
    (),
    SystemError,
> {
    if proxy.0 != 0 {
        if producers.len() != 0 {
            Err(SystemError::ProxyAndProducers)
        } else if voter == proxy {
            Err(SystemError::ProxyToSelf)
        } else {
            Ok(())
        }
    } else if producers.len() > MAX_PRODUCER_VOTES {
        Err(SystemError::TooManyProducers)
    } else if !names_sorted(producers) {
        Err(SystemError::ProducersNotSorted)
    } else {
        Ok(())
    }
}

/// Checks what a vote names.
pub fn check_vote_targets(voter: Name, proxy: Name, producers: &Vec<Name>) -> (r: Result<(), SystemError>)
    ensures
        r == spec_vote_targets(voter, proxy, producers@),
{
    if proxy.0 != 0 {
        if producers.len() != 0 {
            return Err(SystemError::ProxyAndProducers);
        }
        if voter == proxy {
            return Err(SystemError::ProxyToSelf);
        }
        return Ok(());
    }
    if producers.len() > MAX_PRODUCER_VOTES {
        return Err(SystemError::TooManyProducers);
    }
    let mut i: usize = 1;
    while i < producers.len()
        invariant
            1 <= i,
            proxy.0 == 0,
            producers@.len() <= MAX_PRODUCER_VOTES,
            i <= producers@.len() || producers@.len() == 0,
            forall|a: int, b: int| 0 <= a < b < i && b < producers@.len() ==> (#[trigger] producers@[a]).0 < (#[trigger] producers@[b]).0,
        decreases producers@.len() - i,
    {
        if producers[i - 1].0 >= producers[i].0 {
            proof {
                let a = i - 1;
                let b = i as int;
                assert(!((producers@[a]).0 < (producers@[b]).0));
                assert(!names_sorted(producers@));
            }
            return Err(SystemError::ProducersNotSorted);
        }
        proof {
            assert forall|a: int, b: int| 0 <= a < b < i + 1 && b < producers@.len() implies (#[trigger] producers@[a]).0 < (#[trigger] producers@[b]).0 by {
                if b == i as int && a < i - 1 {
                    assert(producers@[a].0 < producers@[i - 1].0);
                }
            }
        }
        i = i + 1;
    }
    proof {
        assert(names_sorted(producers@));
    }
    Ok(())
}

/// Checks the voter: it must have staked, and a proxy may not vote through
/// another proxy. `voter_is_proxy` is the proxy flag of its voter row, if any.
pub fn check_voter(proxy: Name, voter_is_proxy: Option<bool>) -> (r: Result<(), SystemError>)
    ensures
        r == match voter_is_proxy {
            None => Err(SystemError::MustStakeToVote),
            Some(p) => if proxy.0 != 0 && p {
                Err(SystemError::ProxyUsesProxy)
            } else {
                Ok(())
            },
        },
{
    match voter_is_proxy {
        None => Err(SystemError::MustStakeToVote),
        Some(p) => {
            if proxy.0 != 0 && p {
                Err(SystemError::ProxyUsesProxy)
            } else {
                Ok(())
            }
        },
    }
}

/// Counts a voter's stake towards activation when it votes for the first time
/// before the chain is activated, and activates the chain at `now` once
/// enough stake takes part. Gives the new total and activation time.
pub fn activate_stake(
    total_activated_stake: i64,
    thresh_activated_stake_time: TimePoint,
    first_vote: bool,
    staked: i64,
    now: TimePoint,
) -> (r: (i64, TimePoint))
    requires
        i64::MIN <= total_activated_stake + staked <= i64::MAX,
    ensures
        r == if thresh_activated_stake_time.elapsed.0 == 0 && first_vote {
            let total = (total_activated_stake + staked) as i64;
            (total, if total >= MIN_ACTIVATED_STAKE {
                now
            } else {
                thresh_activated_stake_time
            })
        } else {
            (total_activated_stake, thresh_activated_stake_time)
        },
{
    if thresh_activated_stake_time.elapsed.0 == 0 && first_vote {
        let total = total_activated_stake + staked;
        if total >= MIN_ACTIVATED_STAKE {
            (total, now)
        } else {
            (total, thresh_activated_stake_time)
        }
    } else {
        (total_activated_stake, thresh_activated_stake_time)
    }
}

/// Microseconds in three days.
pub const THREE_DAYS_US: i64 = 259200000000i64;

/// Where a producer stands with respect to its vote pay: whether three days
/// have passed since its last claim, at `now`, and whether its vote pay share
/// was already updated after that point.
pub fn votepay_threshold(last_claim_time: TimePoint, last_votepay_share_update: TimePoint, now: TimePoint) -> (r: (
    bool,
    bool,
))
    requires
        last_claim_time.elapsed.0 + THREE_DAYS_US <= i64::MAX,
    ensures
        r.0 == (last_claim_time.elapsed.0 + THREE_DAYS_US <= now.elapsed.0),
        r.1 == (last_claim_time.elapsed.0 + THREE_DAYS_US <= last_votepay_share_update.elapsed.0),
{
    let threshold = last_claim_time.elapsed.0 + THREE_DAYS_US;
    (threshold <= now.elapsed.0, threshold <= last_votepay_share_update.elapsed.0)
}

/// Seconds since the block epoch, in whole weeks: the exponent of the vote
/// weight, before it is divided by 52.
pub fn vote_weeks(now_sec: u32) -> (r: i64)
    ensures
        r == div_toward_zero(now_sec - 946684800, 604800),
{
    let d = now_sec as i64 - 946684800;
    if d >= 0 {
        d / 604800
    } else {
        -((-d) / 604800)
    }
}

/// A voter may not register as a proxy while it votes through a proxy.
pub fn check_propagation(voter_proxy: Name) -> (r: Result<(), SystemError>)
    ensures
        r == if voter_proxy.0 != 0 {
            Err(SystemError::ProxyUsesProxy)
        } else {
            Ok(())
        },
{
    if voter_proxy.0 != 0 {
        Err(SystemError::ProxyUsesProxy)
    } else {
        Ok(())
    }
}

/// The change to the ABI hash row of `account` once it sets an ABI of the
/// given hash: a new row billed to the account, or the found row updated.
pub fn abi_hash_write(account: Name, hash: Checksum256, existing: Option<AbiHash>) -> (r: RowWrite<AbiHash>)
    ensures
        match existing {
            None => r matches RowWrite::Insert { payer, row } && payer == account && row.owner
                == account && row.hash.0@ == hash.0@,
            Some(old) => r matches RowWrite::Update { payer, row } && payer == Name(0) && row.owner
                == old.owner && row.hash.0@ == hash.0@,
        },
{
    match existing {
        None => RowWrite::Insert { payer: account, row: AbiHash { owner: account, hash } },
        Some(old) => RowWrite::Update { payer: Name(0), row: AbiHash { owner: old.owner, hash } },
    }
}

/// The tokens a refund row holds, zero when there is none.
pub open spec fn refund_held(row: Option<RefundRequest>) -> int {
    match row {
        Some(r) => r.net_amount.amount + r.cpu_amount.amount,
        None => 0,
    }
}

/// The tokens the refund row holds after a change.
pub open spec fn refund_held_after(w: Option<RowWrite<RefundRequest>>, before: Option<RefundRequest>) -> int {
    match w {
        None => refund_held(before),
        Some(RowWrite::Remove) => 0,
        Some(RowWrite::Insert { row, .. }) => row.net_amount.amount + row.cpu_amount.amount,
        Some(RowWrite::Update { row, .. }) => row.net_amount.amount + row.cpu_amount.amount,
    }
}

/// The tokens moved to the stake account, zero when none are.
pub open spec fn transferred(t: Option<Asset>) -> int {
    match t {
        Some(a) => a.amount as int,
        None => 0,
    }
}

/// A stake row that is written never holds a negative stake.
pub open spec fn delegated_nonneg(w: Option<RowWrite<DelegatedBandwidth>>) -> bool {
    match w {
        Some(RowWrite::Insert { row, .. }) => row.net_weight.amount >= 0 && row.cpu_weight.amount >= 0,
        Some(RowWrite::Update { row, .. }) => row.net_weight.amount >= 0 && row.cpu_weight.amount >= 0,
        _ => true,
    }
}

/// A totals row that is written never holds a negative stake.
pub open spec fn totals_nonneg(w: Option<RowWrite<UserResources>>) -> bool {
    match w {
        Some(RowWrite::Insert { row, .. }) => row.net_weight.amount >= 0 && row.cpu_weight.amount >= 0,
        Some(RowWrite::Update { row, .. }) => row.net_weight.amount >= 0 && row.cpu_weight.amount >= 0,
        _ => true,
    }
}

proof fn lemma_refund_accounting(
    from: Name,
    net: Asset,
    cpu: Asset,
    existing: Option<RefundRequest>,
    now: TimePointSec,
    core: Symbol,
    rw: Option<RowWrite<RefundRequest>>,
    schedule: bool,
    net_left: Asset,
    cpu_left: Asset,
)
    requires
        spec_refund(from, net, cpu, existing, now, core) == Ok::<
            (Option<RowWrite<RefundRequest>>, bool, Asset, Asset),
            SystemError,
        >((rw, schedule, net_left, cpu_left)),
        net.amount != i64::MIN,
        cpu.amount != i64::MIN,
        existing matches Some(rq) ==> rq.net_amount.amount - net.amount != i64::MIN
            && rq.cpu_amount.amount - cpu.amount != i64::MIN,
    ensures
        net_left.amount >= 0,
        cpu_left.amount >= 0,
        net_left.amount + cpu_left.amount + refund_held(existing) - refund_held_after(rw, existing)
            == net.amount + cpu.amount,
        schedule <==> (rw matches Some(RowWrite::Insert { .. }) || rw matches Some(
            RowWrite::Update { .. },
        )),
{
    match existing {
        Some(r) => {
            let n1 = spec_try_sub(r.net_amount, net)->Ok_0;
            let c1 = spec_try_sub(r.cpu_amount, cpu)->Ok_0;
            assert(n1.amount == r.net_amount.amount - net.amount);
            assert(c1.amount == r.cpu_amount.amount - cpu.amount);
            let (n2, nl) = settle(n1, net);
            let (c2, cl) = settle(c1, cpu);
            assert(nl == net_left && cl == cpu_left);
            if n1.amount < 0 {
                assert(n2.amount == 0 && nl.amount == -n1.amount);
            } else {
                assert(n2.amount == n1.amount && nl.amount == 0);
            }
            if c1.amount < 0 {
                assert(c2.amount == 0 && cl.amount == -c1.amount);
            } else {
                assert(c2.amount == c1.amount && cl.amount == 0);
            }
        },
        None => {},
    }
}

/// A change of stake keeps the books: no stake row it writes is negative, the
/// voting stake changes by the sum of the deltas, a deferred refund is
/// scheduled exactly when a refund row is kept, and, unless the stake account
/// itself is the source, the tokens sent to the stake account plus what is
/// taken out of the pending refund equal the sum of the deltas.
pub proof fn lemma_changebw_balances(
    source: Name,
    receiver: Name,
    net: Asset,
    cpu: Asset,
    transfer: bool,
    authorized: bool,
    delegated: Option<DelegatedBandwidth>,
    totals: Option<UserResources>,
    flags: Option<u32>,
    limits: ResourceLimits,
    refund: Option<RefundRequest>,
    now: TimePointSec,
    core: Symbol,
    plan: ChangeBwPlan,
)
    requires
        spec_changebw(
            source,
            receiver,
            net,
            cpu,
            transfer,
            authorized,
            delegated,
            totals,
            flags,
            limits,
            refund,
            now,
            core,
        ) == Ok::<ChangeBwPlan, SystemError>(plan),
        net.amount != i64::MIN,
        cpu.amount != i64::MIN,
        refund matches Some(rq) ==> rq.net_amount.amount - net.amount != i64::MIN
            && rq.cpu_amount.amount - cpu.amount != i64::MIN,
    ensures
        delegated_nonneg(plan.delegated),
        totals_nonneg(plan.totals),
        plan.voting_delta.amount == net.amount + cpu.amount,
        plan.schedule_refund <==> (plan.refund matches Some(RowWrite::Insert { .. }) || plan.refund matches Some(RowWrite::Update { .. })),
        source.0 != STAKE_ACCOUNT ==> transferred(plan.stake_transfer) + refund_held(
            refund,
        ) - refund_held_after(plan.refund, refund) == net.amount + cpu.amount,
        plan.staker == (if transfer { receiver } else { source }),
{
    let from = if transfer {
        receiver
    } else {
        source
    };
    if source.0 != STAKE_ACCOUNT {
        let undelegating = net.amount + cpu.amount < 0;
        let to_self = !transfer && from == receiver;
        if to_self || undelegating {
            let (rw, schedule, nl, cl) = spec_refund(from, net, cpu, refund, now, core)->Ok_0;
            lemma_refund_accounting(from, net, cpu, refund, now, core, rw, schedule, nl, cl);
        }
    }
}


/// The negation of an asset.
pub open spec fn neg_asset(a: Asset) -> Asset {
    Asset { amount: (-a.amount) as i64, symbol: a.symbol }
}

/// A stored delegation row: both weights of the core symbol, not negative,
/// and not both zero (an empty row is removed, never stored).
pub open spec fn stored_delegation(d: DelegatedBandwidth, core: Symbol) -> bool {
    &&& d.net_weight.symbol == core
    &&& d.cpu_weight.symbol == core
    &&& d.net_weight.amount >= 0
    &&& d.cpu_weight.amount >= 0
    &&& !(d.net_weight.amount == 0 && d.cpu_weight.amount == 0)
}

/// A stored totals row: both weights of the core symbol and not negative, and
/// not all of weights and RAM zero.
pub open spec fn stored_totals(t: UserResources, core: Symbol) -> bool {
    &&& t.net_weight.symbol == core
    &&& t.cpu_weight.symbol == core
    &&& t.net_weight.amount >= 0
    &&& t.cpu_weight.amount >= 0
    &&& !(t.net_weight.amount == 0 && t.cpu_weight.amount == 0 && t.ram_bytes == 0)
}

/// Undelegating what was just delegated restores the stake: after `from`
/// delegates `net` and `cpu` to `receiver` (without transfer), undelegating
/// the same quantities is accepted and leaves the delegation row and the
/// receiver's totals row as they were before the delegation (a row that did
/// not exist is removed again), and the voting stake of `from` changes by
/// opposite amounts, so it returns to its value. Whatever refund row `from`
/// holds at the time of the undelegation, and whatever the flags and limits
/// are then, this holds.
pub proof fn lemma_delegate_then_undelegate(
    from: Name,
    receiver: Name,
    net: Asset,
    cpu: Asset,
    delegated: Option<DelegatedBandwidth>,
    totals: Option<UserResources>,
    flags: Option<u32>,
    limits: ResourceLimits,
    refund: Option<RefundRequest>,
    now: TimePointSec,
    flags2: Option<u32>,
    limits2: ResourceLimits,
    refund2: Option<RefundRequest>,
    now2: TimePointSec,
    core: Symbol,
    staked: i64,
    p1: ChangeBwPlan,
)
    requires
        spec_delegate_checks(from, receiver, net, cpu, false, core) == Ok::<(), SystemError>(()),
        spec_changebw(from, receiver, net, cpu, false, true, delegated, totals, flags, limits, refund, now, core)
            == Ok::<ChangeBwPlan, SystemError>(p1),
        from.0 != STAKE_ACCOUNT,
        net.amount <= MAX_ASSET_AMOUNT,
        cpu.amount <= MAX_ASSET_AMOUNT,
        delegated matches Some(d) ==> stored_delegation(d, core),
        totals matches Some(t) ==> stored_totals(t, core),
        refund2 matches Some(r) ==> r.net_amount.symbol == core && r.cpu_amount.symbol == core
            && 0 <= r.net_amount.amount <= MAX_ASSET_AMOUNT && 0 <= r.cpu_amount.amount <= MAX_ASSET_AMOUNT,
        staked >= 0,
    ensures
        spec_undelegate_checks(net, cpu, true, core) == Ok::<(), SystemError>(()),
        spec_changebw(
            from,
            receiver,
            neg_asset(net),
            neg_asset(cpu),
            false,
            true,
            row_after(delegated, p1.delegated),
            row_after(totals, p1.totals),
            flags2,
            limits2,
            refund2,
            now2,
            core,
        ) matches Ok(p2) && row_after(row_after(delegated, p1.delegated), p2.delegated) == delegated
            && row_after(row_after(totals, p1.totals), p2.totals) == totals
            && p1.voting_delta.amount + p2.voting_delta.amount == 0
            && (staked + p1.voting_delta.amount <= i64::MAX ==> (spec_update_voting_power(
                p1.voting_delta,
                Some(staked),
            ) matches Ok(s1) && spec_update_voting_power(p2.voting_delta, Some(s1)) == Ok::<
                i64,
                SystemError,
            >(staked))),
{
    let d1 = row_after(delegated, p1.delegated);
    let t1 = row_after(totals, p1.totals);
    assert(net.symbol == core && cpu.symbol == core);
    assert(net.amount >= 0 && cpu.amount >= 0);
    let nn = neg_asset(net);
    let nc = neg_asset(cpu);
    assert(spec_check_deltas(nn, nc) matches Ok(s) && s.amount == -(net.amount + cpu.amount));
    let dw1 = spec_delegated(from, receiver, net, cpu, delegated)->Ok_0;
    assert(p1.delegated == dw1);
    let dw2 = spec_delegated(from, receiver, nn, nc, d1);
    assert(dw2 matches Ok(w) && row_after(d1, w) == delegated);
    let tw1 = spec_totals(from, receiver, net, cpu, totals, flags, limits)->Ok_0;
    assert(p1.totals == tw1.0);
    let tw2 = spec_totals(from, receiver, nn, nc, t1, flags2, limits2);
    assert(tw2 matches Ok(w) && row_after(t1, w.0) == totals);
    let rf = spec_refund(from, nn, nc, refund2, now2, core);
    assert(rf matches Ok((rw, sch, nl, cl)) && spec_try_add(nl, cl) is Ok);
    let r2 = spec_changebw(from, receiver, nn, nc, false, true, d1, t1, flags2, limits2, refund2, now2, core);
    assert(nn.amount + nc.amount < 0);
    assert(r2 is Ok);
    let p2 = r2->Ok_0;
    assert(p2.delegated == dw2->Ok_0);
    assert(p2.totals == (tw2->Ok_0).0);
    assert(p2.voting_delta.amount == -(net.amount + cpu.amount));
    assert(p1.voting_delta.amount == net.amount + cpu.amount);
    assert(row_after(d1, p2.delegated) == delegated);
    assert(row_after(t1, p2.totals) == totals);
}


/// What registering a producer does to its rows, apart from the key, URL and
/// location it writes and the vote totals kept as floats by the host side.
#[derive(Debug, Clone, Copy, PartialEq, Eq, Structural)]
pub struct Registration {
    /// Whether the producer row is created (active, with no votes and no
    /// unpaid blocks); otherwise the found row is updated and reactivated.
    pub create_row: bool,
    /// The last claim time the producer row holds afterwards.
    pub last_claim_time: TimePoint,
    /// Whether the producer's second row is created, updated last at `now`
    /// with no votepay share.
    pub create_second_row: bool,
    /// Whether the producer's votes already cast start counting toward the
    /// change rate of the total votepay share.
    pub count_existing_votes: bool,
}

/// The outcome of registering a producer, given the last claim time of its
/// row when there is one, whether its second row exists, and the time now.
pub open spec fn spec_registration(
    existing_last_claim: Option<TimePoint>,
    second_row_exists: bool,
    now: TimePoint,
) -> Registration {
    match existing_last_claim {
        Some(t) => Registration {
            create_row: false,
            last_claim_time: if t.elapsed.0 == 0 {
                now
            } else {
                t
            },
            create_second_row: !second_row_exists,
            count_existing_votes: !second_row_exists,
        },
        None => Registration {
            create_row: true,
            last_claim_time: now,
            create_second_row: true,
            count_existing_votes: false,
        },
    }
}

/// Decides what registering a producer does: a new producer gets both rows,
/// dated `now`; a known one is reactivated, its last claim time set to `now`
/// only when it was never set, and its second row created when missing, in
/// which case its votes start counting toward the votepay share.
pub fn registration(existing_last_claim: Option<TimePoint>, second_row_exists: bool, now: TimePoint) -> (r:
    Registration)
    ensures
        r == spec_registration(existing_last_claim, second_row_exists, now),
{
    match existing_last_claim {
        Some(t) => {
            let last_claim_time = if t.elapsed.0 == 0 {
                now
            } else {
                t
            };
            Registration {
                create_row: false,
                last_claim_time,
                create_second_row: !second_row_exists,
                count_existing_votes: !second_row_exists,
            }
        },
        None => Registration {
            create_row: true,
            last_claim_time: now,
            create_second_row: true,
            count_existing_votes: false,
        },
    }
}


/// The RAM of an account's totals row, or none without a row.
pub open spec fn ram_held(totals: Option<UserResources>) -> int {
    match totals {
        Some(t) => t.ram_bytes as int,
        None => 0,
    }
}

/// Buying RAM credits what was bought: the purchase goes through exactly
/// when some bytes come out; then the reserved RAM grows by the bytes, the
/// RAM stake by what was paid, and the receiver's RAM by the bytes on top of
/// what it already owned. An existing totals row keeps its owner and stake
/// and is billed to the receiver; a new one belongs to the receiver, with no
/// stake of the core token. The RAM limit, unless managed by hand, grows by
/// the gift.
pub proof fn lemma_buyram_credits(
    receiver: Name,
    bytes_out: i64,
    paid: Asset,
    totals: Option<UserResources>,
    flags: Option<u32>,
    limits: ResourceLimits,
    reserved: u64,
    ram_stake: i64,
    core: Symbol,
)
    requires
        bytes_out > 0 ==> reserved + bytes_out <= u64::MAX,
        bytes_out > 0 ==> i64::MIN <= ram_stake + paid.amount <= i64::MAX,
        bytes_out > 0 ==> ram_held(totals) + bytes_out <= i64::MAX,
        limits.ram_bytes + RAM_GIFT_BYTES <= i64::MAX,
    ensures
        spec_buyram_settle(receiver, bytes_out, paid, totals, flags, limits, reserved, ram_stake, core)
            is Ok <==> bytes_out > 0,
        spec_buyram_settle(receiver, bytes_out, paid, totals, flags, limits, reserved, ram_stake, core)
            matches Ok(plan) ==> {
            &&& plan.total_ram_bytes_reserved == reserved + bytes_out
            &&& plan.total_ram_stake == ram_stake + paid.amount
            &&& row_after(totals, Some(plan.totals)) matches Some(t2)
            &&& t2.ram_bytes == ram_held(totals) + bytes_out
            &&& match totals {
                Some(t) => plan.totals matches RowWrite::Update { payer, row } && payer == receiver
                    && row.owner == t.owner && row.net_weight == t.net_weight && row.cpu_weight
                    == t.cpu_weight,
                None => plan.totals matches RowWrite::Insert { payer, row } && payer == receiver
                    && row.owner == receiver && row.net_weight == (Asset { amount: 0, symbol: core })
                    && row.cpu_weight == (Asset { amount: 0, symbol: core }),
            }
            &&& (managed(flags, 1) <==> plan.limits is None)
            &&& (plan.limits matches Some(l) ==> l.ram_bytes == limits.ram_bytes + RAM_GIFT_BYTES
                && l.net_weight == limits.net_weight && l.cpu_weight == limits.cpu_weight)
        },
{
}

/// Registering as a proxy sets the flag that was asked for: it goes through
/// exactly when the proxy signed and its voter row, if any, does not already
/// hold that flag; then an existing row gets the requested flag (the opposite
/// of the one it held) and a missing row is created with it.
pub proof fn lemma_regproxy_sets_flag(proxy: Name, is_proxy: bool, authorized: bool, current: Option<bool>)
    ensures
        spec_regproxy(proxy, is_proxy, authorized, current) is Ok <==> (authorized && current
            != Some(is_proxy)),
        spec_regproxy(proxy, is_proxy, authorized, current) matches Ok(ProxyChange::Update(f)) ==> f
            == is_proxy && current == Some(!is_proxy),
        spec_regproxy(proxy, is_proxy, authorized, current) matches Ok(ProxyChange::Create(f)) ==> f
            == is_proxy && current is None,
{
}

/// A change of stake is recorded as the staker's: the staker is the receiver
/// when the stake is given away and the source otherwise. A new delegation
/// row is from the staker to the receiver, holds exactly the deltas and is
/// billed to the staker; a replaced one keeps its accounts and payer and adds
/// the deltas to its weights. A new totals row belongs to the receiver, holds
/// the deltas and is billed to the staker; a replaced one keeps its owner and
/// RAM and adds the deltas to its weights.
pub proof fn lemma_changebw_records_staker(
    source: Name,
    receiver: Name,
    net: Asset,
    cpu: Asset,
    transfer: bool,
    authorized: bool,
    delegated: Option<DelegatedBandwidth>,
    totals: Option<UserResources>,
    flags: Option<u32>,
    limits: ResourceLimits,
    refund: Option<RefundRequest>,
    now: TimePointSec,
    core: Symbol,
    plan: ChangeBwPlan,
)
    requires
        spec_changebw(source, receiver, net, cpu, transfer, authorized, delegated, totals, flags, limits, refund, now, core)
            == Ok::<ChangeBwPlan, SystemError>(plan),
    ensures
        plan.staker == (if transfer { receiver } else { source }),
        plan.delegated matches Some(RowWrite::Insert { payer, row }) ==> delegated is None && payer
            == plan.staker && row.from == plan.staker && row.to == receiver && row.net_weight == net
            && row.cpu_weight == cpu,
        plan.delegated matches Some(RowWrite::Update { payer, row }) ==> delegated matches Some(d)
            && payer == Name(0) && row.from == d.from && row.to == d.to && row.net_weight.amount
            == d.net_weight.amount + net.amount && row.cpu_weight.amount == d.cpu_weight.amount
            + cpu.amount,
        plan.delegated is Some,
        plan.delegated matches Some(RowWrite::Remove) ==> delegated matches Some(d)
            && d.net_weight.amount + net.amount == 0 && d.cpu_weight.amount + cpu.amount == 0,
        plan.totals matches Some(RowWrite::Insert { payer, row }) ==> totals is None && payer
            == plan.staker && row.owner == receiver && row.net_weight == net && row.cpu_weight == cpu
            && row.ram_bytes == 0,
        plan.totals matches Some(RowWrite::Update { row, .. }) ==> totals matches Some(t)
            && row.owner == t.owner && row.ram_bytes == t.ram_bytes && row.net_weight.amount
            == t.net_weight.amount + net.amount && row.cpu_weight.amount == t.cpu_weight.amount
            + cpu.amount,
{
}


/// Raising the RAM size grows the RAM market with it: the change goes
/// through exactly when the system account signed and the new size is above
/// the current one, below the realistic bound and above what is reserved;
/// then the size becomes the new one and the market's base balance, in the
/// same symbol, grows by exactly the added bytes.
pub proof fn lemma_setram_grows_market(
    new_size: u64,
    authorized: bool,
    self_account: Name,
    max_ram_size: u64,
    reserved: u64,
    base: Asset,
)
    requires
        base.amount + (new_size - max_ram_size) <= i64::MAX,
    ensures
        spec_setram(new_size, authorized, self_account, max_ram_size, reserved, base) is Ok <==> (
        authorized && max_ram_size < new_size && new_size < MAX_RAM_SIZE && reserved < new_size),
        spec_setram(new_size, authorized, self_account, max_ram_size, reserved, base) matches Ok(
            (size, b),
        ) ==> size == new_size && b.symbol == base.symbol && b.amount - base.amount == new_size
            - max_ram_size,
{
}

/// RAM grows with the blocks, and the market with it: the RAM size and the
/// market's base balance grow by the same number of bytes, `new_ram_per_block`
/// for every block since the last increase, which is then the given block;
/// nothing changes when no block has passed. Bringing the supply up to date
/// twice at the same block is the same as doing it once.
pub proof fn lemma_ram_supply_growth(cbt: BlockTimestamp, new_ram_per_block: u16, s: RamSupply)
    requires
        cbt.slot > s.last_ram_increase.slot ==> ({
            let new_ram = (cbt.slot - s.last_ram_increase.slot) * new_ram_per_block;
            &&& s.max_ram_size + new_ram <= u64::MAX
            &&& s.base.amount + new_ram <= i64::MAX
        }),
    ensures
        ({
            let r = spec_update_ram_supply(cbt, new_ram_per_block, s);
            &&& r.max_ram_size - s.max_ram_size == r.base.amount - s.base.amount
            &&& r.base.symbol == s.base.symbol
            &&& (cbt.slot > s.last_ram_increase.slot ==> r.last_ram_increase == cbt && r.max_ram_size
                - s.max_ram_size == (cbt.slot - s.last_ram_increase.slot) * new_ram_per_block)
            &&& (cbt.slot <= s.last_ram_increase.slot ==> r == s)
            &&& spec_update_ram_supply(cbt, new_ram_per_block, r) == r
        }),
{
}

/// A refund pays the pending network amount to the owner of the refund row:
/// the claim goes through exactly when the owner signed, a refund is pending
/// and its time has come.
pub proof fn lemma_refund_pays_owner(
    owner: Name,
    authorized: bool,
    existing: Option<RefundRequest>,
    now: TimePointSec,
)
    ensures
        spec_refund_claim(owner, authorized, existing, now) is Ok <==> (authorized && (existing matches Some(
            rq,
        ) && rq.request_time.utc_seconds <= now.utc_seconds)),
        spec_refund_claim(owner, authorized, existing, now) matches Ok((who, amount)) ==> existing matches Some(
            rq,
        ) && who == rq.owner && amount == rq.net_amount,
{
}

/// The RAM fee is a half percent, rounded up: a purchase goes through exactly
/// when the payer signed and pays a positive amount of the core token; then
/// the fee and what is paid for RAM add up to the quantity, both in its
/// symbol, the fee is at least one unit, and it is the least amount whose
/// two hundredfold covers the quantity.
pub proof fn lemma_buyram_fee_split(quant: Asset, authorized: bool, payer: Name, core: Symbol)
    ensures
        spec_buyram_fee(quant, authorized, payer, core) is Ok <==> (authorized && quant.symbol == core
            && quant.amount > 0),
        spec_buyram_fee(quant, authorized, payer, core) matches Ok((fee, paid)) ==> {
            &&& fee.amount + paid.amount == quant.amount
            &&& fee.symbol == quant.symbol && paid.symbol == quant.symbol
            &&& fee.amount >= 1
            &&& 200 * fee.amount >= quant.amount
            &&& 200 * (fee.amount - 1) < quant.amount
        },
{
}

/// A new account gets an empty resources row of its own: no stake of the
/// core token and no RAM. The system account and the proton account may
/// create any account.
pub proof fn lemma_newaccount_row(creator: Name, name: Name, self_account: Name, core: Symbol)
    ensures
        spec_newaccount(creator, name, self_account, core) matches Ok(row) ==> row.owner == name
            && row.net_weight == (Asset { amount: 0, symbol: core }) && row.cpu_weight == (Asset {
            amount: 0,
            symbol: core,
        }) && row.ram_bytes == 0,
        (creator == self_account || creator.0 == PROTON_ACCOUNT) ==> spec_newaccount(
            creator,
            name,
            self_account,
            core,
        ) is Ok,
{
}

/// A conversion on the RAM market goes from the symbol sold to the other
/// side of the market: base to quote when selling the base symbol for the
/// quote one, quote to base the other way, and nothing else is accepted.
pub proof fn lemma_conversion_direction(sell: Symbol, to: Symbol, base: Symbol, quote: Symbol)
    ensures
        spec_conversion(sell, to, base, quote) is Ok <==> sell != to && ((sell == base && to == quote)
            || (sell == quote && to == base)),
        spec_conversion(sell, to, base, quote) == Ok::<Conversion, SystemError>(Conversion::BaseToQuote)
            ==> sell == base && to == quote,
        spec_conversion(sell, to, base, quote) == Ok::<Conversion, SystemError>(Conversion::QuoteToBase)
            ==> sell == quote && to == base,
{
}

/// A conversion moves what is sold into the market and what is bought out of
/// it: the balance of the side sold grows by the amount paid in, the other
/// side shrinks by the amount paid out, each keeps its symbol, and the asset
/// paid out is the given amount of the symbol bought.
pub proof fn lemma_conversion_moves_balances(
    dir: Conversion,
    from: Asset,
    to: Symbol,
    out_amount: i64,
    base: Asset,
    quote: Asset,
)
    ensures
        spec_apply_conversion(dir, from, to, out_amount, base, quote) matches Ok((b, q, out)) ==> {
            &&& out.amount == out_amount && out.symbol == to
            &&& b.symbol == base.symbol && q.symbol == quote.symbol
            &&& match dir {
                Conversion::BaseToQuote => b.amount == base.amount + from.amount && q.amount
                    == quote.amount - out_amount,
                Conversion::QuoteToBase => q.amount == quote.amount + from.amount && b.amount
                    == base.amount - out_amount,
            }
        },
{
}

/// The voting stake changes by the update: the new stake is the old one (or
/// zero for a new voter) plus the update, and the update is refused exactly
/// when that would be negative.
pub proof fn lemma_voting_power_adds(total_update: Asset, staked: Option<i64>)
    requires
        staked matches Some(s) ==> s + total_update.amount <= i64::MAX,
    ensures
        ({
            let before: int = match staked {
                Some(s) => s as int,
                None => 0,
            };
            &&& spec_update_voting_power(total_update, staked) is Ok <==> before + total_update.amount
                >= 0
            &&& spec_update_voting_power(total_update, staked) matches Ok(s) ==> s == before
                + total_update.amount
        }),
{
}


/// A vote names either a proxy or producers, never both: it is accepted
/// exactly when it names a proxy other than the voter and no producer, or no
/// proxy and at most the allowed number of producers, each once and in
/// increasing order of their values.
pub proof fn lemma_vote_targets(voter: Name, proxy: Name, producers: Seq<Name>)
    ensures
        spec_vote_targets(voter, proxy, producers) is Ok <==> (
        (proxy.0 != 0 && producers.len() == 0 && voter != proxy)
        || (proxy.0 == 0 && producers.len() <= MAX_PRODUCER_VOTES && forall|i: int, j: int|
            0 <= i < j < producers.len() ==> (#[trigger] producers[i]).0 < (#[trigger] producers[j]).0)),
{
}

/// Registering a producer keeps what it already had: a known producer keeps
/// its row and its last claim time, unless that was never set, in which case
/// it becomes the time now; a new producer gets both rows, dated now. The
/// second row is created exactly when it is missing, and only a known
/// producer's existing votes then start counting.
pub proof fn lemma_registration_keeps(
    existing_last_claim: Option<TimePoint>,
    second_row_exists: bool,
    now: TimePoint,
)
    ensures
        ({
            let r = spec_registration(existing_last_claim, second_row_exists, now);
            &&& r.create_row <==> existing_last_claim is None
            &&& r.last_claim_time == match existing_last_claim {
                Some(t) => if t.elapsed.0 == 0 { now } else { t },
                None => now,
            }
            &&& r.create_second_row <==> (existing_last_claim is None || !second_row_exists)
            &&& r.count_existing_votes <==> (existing_last_claim is Some && !second_row_exists)
        }),
{
}

} // verus!
