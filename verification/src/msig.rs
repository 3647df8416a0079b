use vstd::prelude::*;

use crate::authority::PermissionLevel;
use crate::name::Name;
use crate::asset::div_toward_zero;
use crate::codec::{lemma_prefix_concat, lemma_written_concat, prefix_at, Packed, ReadError, WriteError};
use crate::store::RowWrite;
use crate::time::{TimePoint, TimePointSec};

verus! {

/// An approval of a proposal: who approves, and when.
#[derive(Debug, Clone, Copy, PartialEq, Eq, Structural)]
pub struct Approval {
    pub level: PermissionLevel,
    pub time: TimePoint,
}

/// `a` comes strictly before `b` in the order of approvals.
pub open spec fn approval_lt(a: Approval, b: Approval) -> bool {
    ||| a.level.actor.0 < b.level.actor.0
    ||| (a.level.actor.0 == b.level.actor.0 && a.level.permission.0 < b.level.permission.0)
    ||| (a.level.actor.0 == b.level.actor.0 && a.level.permission.0 == b.level.permission.0
        && a.time.elapsed.0 < b.time.elapsed.0)
}

/// The approvals are in strictly increasing order, so each occurs once: the
/// order in which a set of them is walked.
pub open spec fn approvals_sorted(s: Seq<Approval>) -> bool {
    forall|i: int, j: int| 0 <= i < j < s.len() ==> approval_lt(#[trigger] s[i], #[trigger] s[j])
}

/// `a` comes strictly before `b` in the order of permission levels.
pub open spec fn level_lt(a: PermissionLevel, b: PermissionLevel) -> bool {
    ||| a.actor.0 < b.actor.0
    ||| (a.actor.0 == b.actor.0 && a.permission.0 < b.permission.0)
}

/// The levels are in strictly increasing order, so each occurs once.
pub open spec fn levels_sorted(s: Seq<PermissionLevel>) -> bool {
    forall|i: int, j: int| 0 <= i < j < s.len() ==> level_lt(#[trigger] s[i], #[trigger] s[j])
}

/// The approvals asked for and given for one proposal, each kept as an
/// ordered set.
#[derive(Debug, Clone)]
pub struct ApprovalsInfo {
    pub version: u8,
    pub proposal_name: Name,
    pub requested_approvals: Vec<Approval>,
    pub provided_approvals: Vec<Approval>,
}

impl ApprovalsInfo {
    /// Both sets of approvals are ordered.
    pub open spec fn well_formed(&self) -> bool {
        approvals_sorted(self.requested_approvals@) && approvals_sorted(self.provided_approvals@)
    }

    /// The approvals still asked for, in order.
    pub fn requested_approvals(&self) -> (r: &Vec<Approval>)
        ensures
            r@ == self.requested_approvals@,
    {
        &self.requested_approvals
    }
}

/// A proposed transaction, waiting for approvals.
#[derive(Debug, Clone)]
pub struct Proposal {
    pub proposal_name: Name,
    pub packed_transaction: Vec<u8>,
    pub earliest_exec_time: Option<TimePoint>,
}

/// Why a multisig action was refused.
#[derive(Debug, Clone, Copy, PartialEq, Eq, Structural)]
pub enum MsigError {
    /// The action needs the authority of this permission.
    MissingAuth(PermissionLevel),
    ProposalNotFound,
    NotRequested,
    NotProvided,
    Expired,
    ContextFreeInPropose,
    ContextFreeInExec,
    ProposalExists,
    AuthorizationFailed,
    CannotCancelYet,
    TooEarly,
    OldProposalDelay,
}

impl MsigError {
    /// The text of the message, as a sequence of characters.
    pub open spec fn spec_message(&self) -> Seq<char> {
        match self {
            MsigError::MissingAuth(_) => "missing required authority"@,
            MsigError::ProposalNotFound => "proposal not found"@,
            MsigError::NotRequested => "approval is not on the list of requested approvals"@,
            MsigError::NotProvided => "no approval previously granted"@,
            MsigError::Expired => "transaction expired"@,
            MsigError::ContextFreeInPropose => "not allowed to `propose` a transaction with context-free actions"@,
            MsigError::ContextFreeInExec => "not allowed to `exec` a transaction with context-free actions"@,
            MsigError::ProposalExists => "proposal with the same name exists"@,
            MsigError::AuthorizationFailed => "transaction authorization failed"@,
            MsigError::CannotCancelYet => "cannot cancel until expiration"@,
            MsigError::TooEarly => "too early to execute"@,
            MsigError::OldProposalDelay => "old proposals are not allowed to have non-zero `delay_sec`; cancel and retry"@,
        }
    }

    /// The message with which the action aborts.
    pub fn message(&self) -> (r: &'static str)
        ensures
            r@ == self.spec_message(),
    {
        match self {
            MsigError::MissingAuth(_) => "missing required authority",
            MsigError::ProposalNotFound => "proposal not found",
            MsigError::NotRequested => "approval is not on the list of requested approvals",
            MsigError::NotProvided => "no approval previously granted",
            MsigError::Expired => "transaction expired",
            MsigError::ContextFreeInPropose => "not allowed to `propose` a transaction with context-free actions",
            MsigError::ContextFreeInExec => "not allowed to `exec` a transaction with context-free actions",
            MsigError::ProposalExists => "proposal with the same name exists",
            MsigError::AuthorizationFailed => "transaction authorization failed",
            MsigError::CannotCancelYet => "cannot cancel until expiration",
            MsigError::TooEarly => "too early to execute",
            MsigError::OldProposalDelay => "old proposals are not allowed to have non-zero `delay_sec`; cancel and retry",
        }
    }
}

fn same_level(a: PermissionLevel, b: PermissionLevel) -> (r: bool)
    ensures
        r == (a == b),
{
    a.actor.0 == b.actor.0 && a.permission.0 == b.permission.0
}

fn approval_less(a: Approval, b: Approval) -> (r: bool)
    ensures
        r == approval_lt(a, b),
{
    a.level.actor.0 < b.level.actor.0 || (a.level.actor.0 == b.level.actor.0
        && a.level.permission.0 < b.level.permission.0) || (a.level.actor.0 == b.level.actor.0
        && a.level.permission.0 == b.level.permission.0 && a.time.elapsed.0 < b.time.elapsed.0)
}

/// The index of the first approval of `level` in `s`, if any.
pub open spec fn first_of_level(s: Seq<Approval>, level: PermissionLevel) -> Option<int> {
    if exists|i: int| 0 <= i < s.len() && s[i].level == level {
        Some(choose|i: int| 0 <= i < s.len() && s[i].level == level && forall|j: int| 0 <= j < i ==> #[trigger] s[j].level != level)
    } else {
        None
    }
}

/// Finds the first approval of `level` in `s`.
fn find_level(s: &Vec<Approval>, level: PermissionLevel) -> (r: Option<usize>)
    ensures
        match r {
            Some(i) => i < s@.len() && s@[i as int].level == level && forall|j: int|
                0 <= j < i ==> s@[j].level != level,
            None => forall|j: int| 0 <= j < s@.len() ==> s@[j].level != level,
        },
        r matches Some(i) ==> first_of_level(s@, level) == Some(i as int),
        r is None ==> first_of_level(s@, level) is None,
{
    let mut i: usize = 0;
    while i < s.len()
        invariant
            i <= s@.len(),
            forall|j: int| 0 <= j < i ==> s@[j].level != level,
        decreases s@.len() - i,
    {
        if same_level(s[i].level, level) {
            proof {
                let w = choose|k: int| 0 <= k < s@.len() && s@[k].level == level && forall|j: int| 0 <= j < k ==> #[trigger] s@[j].level != level;
                assert(0 <= i < s@.len() && s@[i as int].level == level && forall|j: int| 0 <= j < i ==> s@[j].level != level);
                if w < i {
                    assert(s@[w].level != level);
                } else if w > i {
                    assert(s@[i as int].level != level);
                }
            }
            return Some(i);
        }
        i = i + 1;
    }
    None
}

/// `k` is where `a` goes in the ordered set `s`: after the approvals before
/// it and before those after it.
pub open spec fn insert_pos(s: Seq<Approval>, a: Approval, k: int) -> bool {
    &&& 0 <= k <= s.len()
    &&& forall|j: int| 0 <= j < k ==> approval_lt(#[trigger] s[j], a)
    &&& forall|j: int| k <= j < s.len() ==> approval_lt(a, #[trigger] s[j])
}

/// The ordered set `s` with `a` added; unchanged when `a` is in it.
pub open spec fn set_insert(s: Seq<Approval>, a: Approval) -> Seq<Approval> {
    if s.contains(a) {
        s
    } else {
        s.insert(choose|k: int| insert_pos(s, a, k), a)
    }
}

/// Adds `a` to the ordered set `s`.
fn insert_approval(s: &mut Vec<Approval>, a: Approval)
    requires
        approvals_sorted(old(s)@),
    ensures
        approvals_sorted(final(s)@),
        final(s)@.to_set() == old(s)@.to_set().insert(a),
        final(s)@ == set_insert(old(s)@, a),
{
    let mut k: usize = 0;
    while k < s.len() && approval_less(s[k], a)
        invariant
            k <= s@.len(),
            approvals_sorted(s@),
            s@ == old(s)@,
            forall|j: int| 0 <= j < k ==> approval_lt(#[trigger] s@[j], a),
        decreases s@.len() - k,
    {
        k = k + 1;
    }
    if k < s.len() && s[k] == a {
        proof {
            assert(s@.contains(a));
            assert(s@.to_set() =~= s@.to_set().insert(a));
        }
        return;
    }
    proof {
        assert(forall|j: int| k <= j < s@.len() ==> approval_lt(a, #[trigger] s@[j])) by {
            assert forall|j: int| k <= j < s@.len() implies approval_lt(a, s@[j]) by {
                if j > k {
                    assert(approval_lt(s@[k as int], s@[j]));
                }
            }
        }
        assert(!s@.contains(a)) by {
            if s@.contains(a) {
                let t = choose|t: int| 0 <= t < s@.len() && s@[t] == a;
                if t < k {
                    assert(approval_lt(s@[t], a));
                } else {
                    assert(approval_lt(a, s@[t]));
                }
            }
        }
    }
    let ghost before = s@;
    s.insert(k, a);
    proof {
        assert(approvals_sorted(s@)) by {
            assert forall|i: int, j: int| 0 <= i < j < s@.len() implies approval_lt(#[trigger] s@[i], #[trigger] s@[j]) by {
                if i < k && j < k {
                    assert(s@[i] == before[i] && s@[j] == before[j]);
                } else if i < k && j == k {
                } else if i < k && j > k {
                    assert(s@[j] == before[j - 1]);
                    assert(approval_lt(before[i], before[j - 1]));
                } else if i == k {
                    assert(s@[j] == before[j - 1]);
                } else {
                    assert(s@[i] == before[i - 1] && s@[j] == before[j - 1]);
                }
            }
        }
        assert(s@.to_set() =~= before.to_set().insert(a)) by {
            assert forall|x: Approval| s@.to_set().contains(x) <==> before.to_set().insert(a).contains(x) by {
                if s@.contains(x) {
                    let t = choose|t: int| 0 <= t < s@.len() && s@[t] == x;
                    if t < k {
                        assert(before[t] == x);
                    } else if t > k {
                        assert(before[t - 1] == x);
                    }
                }
                if before.contains(x) {
                    let t = choose|t: int| 0 <= t < before.len() && before[t] == x;
                    if t < k {
                        assert(s@[t] == x);
                    } else {
                        assert(s@[t + 1] == x);
                    }
                }
                if x == a {
                    assert(s@[k as int] == a);
                }
            }
        }
        assert(insert_pos(before, a, k as int));
        let kk = choose|kk: int| insert_pos(before, a, kk);
        if kk < k {
            assert(approval_lt(a, before[kk]));
            assert(approval_lt(before[kk], a));
        } else if kk > k {
            assert(approval_lt(before[k as int], a));
            assert(approval_lt(a, before[k as int]));
        }
    }
}


proof fn lemma_remove_sorted(s: Seq<Approval>, i: int)
    requires
        approvals_sorted(s),
        0 <= i < s.len(),
    ensures
        approvals_sorted(s.remove(i)),
{
    let t = s.remove(i);
    assert forall|a: int, b: int| 0 <= a < b < t.len() implies approval_lt(#[trigger] t[a], #[trigger] t[b]) by {
        let a2 = if a < i { a } else { a + 1 };
        let b2 = if b < i { b } else { b + 1 };
        assert(t[a] == s[a2] && t[b] == s[b2]);
    }
}

/// Moves the first requested approval of `level` to the provided ones, with
/// the time `now`; `authorized` says whether `level` signed, and `info` is the
/// proposal's approvals row. Gives the new row, stored billed to the proposer.
pub fn approve(level: PermissionLevel, authorized: bool, info: Option<ApprovalsInfo>, now: TimePoint) -> (r:
    Result<ApprovalsInfo, MsigError>)
    requires
        info matches Some(i) ==> i.well_formed(),
    ensures
        match r {
            Ok(n) => authorized && (info matches Some(i) && (first_of_level(i.requested_approvals@, level) matches Some(k)
                && n.requested_approvals@ == i.requested_approvals@.remove(k)
                && n.provided_approvals@ == set_insert(i.provided_approvals@, Approval { level, time: now })
                && n.version == i.version && n.proposal_name == i.proposal_name && n.well_formed())),
            Err(e) => if !authorized {
                e == MsigError::MissingAuth(level)
            } else if info is None {
                e == MsigError::ProposalNotFound
            } else {
                e == MsigError::NotRequested && first_of_level(info.unwrap().requested_approvals@, level) is None
            },
        },
{
    if !authorized {
        return Err(MsigError::MissingAuth(level));
    }
    let mut info = match info {
        None => {
            return Err(MsigError::ProposalNotFound);
        },
        Some(i) => i,
    };
    let k = match find_level(&info.requested_approvals, level) {
        None => {
            return Err(MsigError::NotRequested);
        },
        Some(k) => k,
    };
    proof {
        lemma_remove_sorted(info.requested_approvals@, k as int);
    }
    let _ = info.requested_approvals.remove(k);
    insert_approval(&mut info.provided_approvals, Approval { level, time: now });
    Ok(info)
}

/// Moves the first provided approval of `level` back to the requested ones,
/// with the time `now`.
pub fn unapprove(level: PermissionLevel, authorized: bool, info: Option<ApprovalsInfo>, now: TimePoint) -> (r:
    Result<ApprovalsInfo, MsigError>)
    requires
        info matches Some(i) ==> i.well_formed(),
    ensures
        match r {
            Ok(n) => authorized && (info matches Some(i) && (first_of_level(i.provided_approvals@, level) matches Some(k)
                && n.provided_approvals@ == i.provided_approvals@.remove(k)
                && n.requested_approvals@ == set_insert(i.requested_approvals@, Approval { level, time: now })
                && n.version == i.version && n.proposal_name == i.proposal_name && n.well_formed())),
            Err(e) => if !authorized {
                e == MsigError::MissingAuth(level)
            } else if info is None {
                e == MsigError::ProposalNotFound
            } else {
                e == MsigError::NotProvided && first_of_level(info.unwrap().provided_approvals@, level) is None
            },
        },
{
    if !authorized {
        return Err(MsigError::MissingAuth(level));
    }
    let mut info = match info {
        None => {
            return Err(MsigError::ProposalNotFound);
        },
        Some(i) => i,
    };
    let k = match find_level(&info.provided_approvals, level) {
        None => {
            return Err(MsigError::NotProvided);
        },
        Some(k) => k,
    };
    proof {
        lemma_remove_sorted(info.provided_approvals@, k as int);
    }
    let _ = info.provided_approvals.remove(k);
    insert_approval(&mut info.requested_approvals, Approval { level, time: now });
    Ok(info)
}

proof fn lemma_insert_pos_exists(s: Seq<Approval>, a: Approval)
    requires
        approvals_sorted(s),
        !s.contains(a),
    ensures
        exists|k: int| insert_pos(s, a, k),
    decreases s.len(),
{
    if s.len() == 0 {
        assert(insert_pos(s, a, 0));
    } else {
        let p = s.drop_last();
        assert(approvals_sorted(p)) by {
            assert forall|i: int, j: int| 0 <= i < j < p.len() implies approval_lt(#[trigger] p[i], #[trigger] p[j]) by {
                assert(p[i] == s[i] && p[j] == s[j]);
            }
        }
        assert(!p.contains(a)) by {
            if p.contains(a) {
                let t = choose|t: int| 0 <= t < p.len() && p[t] == a;
                assert(s[t] == a);
            }
        }
        lemma_insert_pos_exists(p, a);
        let k = choose|k: int| insert_pos(p, a, k);
        let last = s.last();
        assert(last != a) by {
            assert(s[s.len() - 1] == last);
        }
        if approval_lt(last, a) {
            assert forall|j: int| 0 <= j < s.len() implies approval_lt(#[trigger] s[j], a) by {
                if j < s.len() - 1 {
                    assert(approval_lt(s[j], s[s.len() - 1]));
                }
            }
            assert(insert_pos(s, a, s.len() as int));
        } else {
            assert(approval_lt(a, last));
            assert forall|j: int| 0 <= j < k implies approval_lt(#[trigger] s[j], a) by {
                assert(s[j] == p[j]);
            }
            assert forall|j: int| k <= j < s.len() implies approval_lt(a, #[trigger] s[j]) by {
                if j < s.len() - 1 {
                    assert(s[j] == p[j]);
                }
            }
            assert(insert_pos(s, a, k));
        }
    }
}

/// Adding an approval to an ordered set puts it there.
pub proof fn lemma_set_insert_contains(s: Seq<Approval>, a: Approval)
    requires
        approvals_sorted(s),
    ensures
        set_insert(s, a).contains(a),
{
    if !s.contains(a) {
        lemma_insert_pos_exists(s, a);
        let k = choose|k: int| insert_pos(s, a, k);
        assert(s.insert(k, a)[k] == a);
    }
}

/// An approval just given can be withdrawn: after `approve` succeeds for a
/// level, `unapprove` of the same level by the same signer succeeds on the
/// new row, whatever the time.
pub proof fn lemma_approve_then_unapprove(info: ApprovalsInfo, level: PermissionLevel, now: TimePoint)
    requires
        info.well_formed(),
        first_of_level(info.requested_approvals@, level) is Some,
    ensures
        first_of_level(set_insert(info.provided_approvals@, Approval { level, time: now }), level) is Some,
{
    let t = set_insert(info.provided_approvals@, Approval { level, time: now });
    lemma_set_insert_contains(info.provided_approvals@, Approval { level, time: now });
    let i = choose|i: int| 0 <= i < t.len() && t[i] == Approval { level, time: now };
    assert(0 <= i < t.len() && t[i].level == level);
}

/// An approval still counts unless its actor invalidated its approvals at or
/// after the time it was given.
pub open spec fn approval_counts(a: Approval, invalidated: Option<TimePoint>) -> bool {
    match invalidated {
        None => true,
        Some(t) => t.elapsed.0 < a.time.elapsed.0,
    }
}

/// The permission levels whose approvals still count, as an ordered set.
/// `invalidations[i]` is the last invalidation time of the actor of
/// `provided[i]`, if it ever invalidated.
pub fn counted_levels(provided: &Vec<Approval>, invalidations: &Vec<Option<TimePoint>>) -> (r: Vec<
    PermissionLevel,
>)
    requires
        approvals_sorted(provided@),
        invalidations@.len() == provided@.len(),
    ensures
        levels_sorted(r@),
        forall|l: PermissionLevel| r@.contains(l) <==> exists|i: int|
            0 <= i < provided@.len() && provided@[i].level == l && #[trigger] approval_counts(
                provided@[i],
                invalidations@[i],
            ),
{
    let mut out: Vec<PermissionLevel> = Vec::new();
    let mut i: usize = 0;
    let n = provided.len();
    while i < n
        invariant
            n == provided@.len(),
            invalidations@.len() == n,
            i <= n,
            approvals_sorted(provided@),
            levels_sorted(out@),
            out@.len() > 0 ==> i > 0 && !level_lt(provided@[i - 1].level, out@.last()) && (out@.last()
                == provided@[i - 1].level || level_lt(out@.last(), provided@[i - 1].level)),
            forall|l: PermissionLevel| out@.contains(l) <==> exists|j: int|
                0 <= j < i && provided@[j].level == l && #[trigger] approval_counts(provided@[j], invalidations@[j]),
        decreases n - i,
    {
        let a = provided[i];
        let counts = match invalidations[i] {
            None => true,
            Some(t) => t.elapsed.0 < a.time.elapsed.0,
        };
        let ghost old_out = out@;
        if counts {
            let push = if out.len() == 0 {
                true
            } else {
                let last = out[out.len() - 1];
                !same_level(last, a.level)
            };
            if push {
                proof {
                    if old_out.len() > 0 {
                        assert(approval_lt(provided@[i - 1], provided@[i as int]));
                    }
                }
                out.push(a.level);
                proof {
                    assert forall|x: int, y: int| 0 <= x < y < out@.len() implies level_lt(#[trigger] out@[x], #[trigger] out@[y]) by {
                        if y == out@.len() - 1 && x < y {
                            assert(old_out.len() > 0);
                            assert(out@[x] == old_out[x]);
                            if x < old_out.len() - 1 {
                                assert(level_lt(old_out[x], old_out.last()));
                            }
                        } else {
                            assert(out@[x] == old_out[x] && out@[y] == old_out[y]);
                        }
                    }
                }
            }
        }
        proof {
            assert(out@.len() >= old_out.len());
            assert(forall|t: int| 0 <= t < old_out.len() ==> out@[t] == old_out[t]);
            if i > 0 {
                assert(approval_lt(provided@[i - 1], provided@[i as int]));
            }
            assert forall|l: PermissionLevel| out@.contains(l) <==> exists|j: int|
                0 <= j < i + 1 && provided@[j].level == l && #[trigger] approval_counts(provided@[j], invalidations@[j]) by {
                if out@.contains(l) {
                    if !old_out.contains(l) {
                        assert(out@.last() == l);
                        assert(provided@[i as int].level == l && approval_counts(provided@[i as int], invalidations@[i as int]));
                    }
                }
                if exists|j: int| 0 <= j < i + 1 && provided@[j].level == l && #[trigger] approval_counts(provided@[j], invalidations@[j]) {
                    let j = choose|j: int| 0 <= j < i + 1 && provided@[j].level == l && #[trigger] approval_counts(provided@[j], invalidations@[j]);
                    if j < i {
                        assert(old_out.contains(l));
                        let t = choose|t: int| 0 <= t < old_out.len() && old_out[t] == l;
                        assert(out@[t] == l);
                    } else {
                        if old_out.len() > 0 && old_out.last() == l {
                            assert(out@.contains(old_out[old_out.len() - 1]));
                        } else {
                            assert(out@.last() == l);
                            assert(out@.contains(out@[out@.len() - 1]));
                        }
                    }
                }
            }
        }
        i = i + 1;
    }
    out
}

/// Whether `a` comes strictly before `b` in the order of permission levels.
fn level_less(a: &PermissionLevel, b: &PermissionLevel) -> (r: bool)
    ensures
        r == level_lt(*a, *b),
{
    a.actor.0 < b.actor.0 || (a.actor.0 == b.actor.0 && a.permission.0 < b.permission.0)
}

/// Inserts `x` into the ordered levels `out` at its place, unless it is
/// there already.
fn insert_level(out: &mut Vec<PermissionLevel>, x: PermissionLevel)
    requires
        levels_sorted(old(out)@),
    ensures
        levels_sorted(final(out)@),
        forall|y: PermissionLevel| #[trigger] final(out)@.contains(y) <==> (old(out)@.contains(y) || y == x),
{
    let mut k: usize = 0;
    while k < out.len() && level_less(&out[k], &x)
        invariant
            k <= out@.len(),
            out@ == old(out)@,
            levels_sorted(out@),
            forall|j: int| 0 <= j < k ==> level_lt(#[trigger] out@[j], x),
        decreases out@.len() - k,
    {
        k = k + 1;
    }
    if k < out.len() && out[k] == x {
        return;
    }
    let ghost s = out@;
    proof {
        assert(k < s.len() ==> level_lt(x, s[k as int]));
        assert forall|j: int| k <= j < s.len() implies level_lt(x, #[trigger] s[j]) by {
            if j > k {
                assert(level_lt(s[k as int], s[j]));
            }
        }
    }
    out.insert(k, x);
    proof {
        let f = out@;
        assert(f =~= s.insert(k as int, x));
        assert forall|i: int, j: int| 0 <= i < j < f.len() implies level_lt(#[trigger] f[i], #[trigger] f[j]) by {
            if j < k {
                assert(level_lt(s[i], s[j]));
            } else if j == k {
                assert(level_lt(s[i], x));
            } else if i < k {
                assert(level_lt(s[i], x));
                assert(level_lt(x, s[j - 1]));
            } else if i == k {
                assert(level_lt(x, s[j - 1]));
            } else {
                assert(level_lt(s[i - 1], s[j - 1]));
            }
        }
        assert forall|y: PermissionLevel| #[trigger] f.contains(y) <==> (s.contains(y) || y == x) by {
            if f.contains(y) {
                let i = choose|i: int| 0 <= i < f.len() && f[i] == y;
                if i < k {
                    assert(s[i] == y);
                } else if i > k {
                    assert(s[i - 1] == y);
                }
            }
            if s.contains(y) {
                let i = choose|i: int| 0 <= i < s.len() && s[i] == y;
                if i < k {
                    assert(f[i] == y);
                } else {
                    assert(f[i + 1] == y);
                }
            }
            if y == x {
                assert(f[k as int] == x);
            }
        }
    }
}

/// The requested levels as a proposal keeps them: ordered, each once, and
/// the same levels as were given.
pub fn sorted_levels(levels: &Vec<PermissionLevel>) -> (r: Vec<PermissionLevel>)
    ensures
        levels_sorted(r@),
        forall|y: PermissionLevel| #[trigger] r@.contains(y) <==> levels@.contains(y),
{
    let mut out: Vec<PermissionLevel> = Vec::new();
    let mut i: usize = 0;
    while i < levels.len()
        invariant
            i <= levels@.len(),
            levels_sorted(out@),
            forall|y: PermissionLevel| #[trigger] out@.contains(y) <==> levels@.subrange(0, i as int).contains(y),
        decreases levels@.len() - i,
    {
        let ghost before = out@;
        insert_level(&mut out, levels[i]);
        proof {
            let sub = levels@.subrange(0, i + 1);
            assert forall|y: PermissionLevel| #[trigger] out@.contains(y) <==> sub.contains(y) by {
                if sub.contains(y) {
                    let j = choose|j: int| 0 <= j < sub.len() && sub[j] == y;
                    if j < i {
                        assert(levels@.subrange(0, i as int)[j] == y);
                    }
                }
                if levels@.subrange(0, i as int).contains(y) {
                    let j = choose|j: int| 0 <= j < i && levels@.subrange(0, i as int)[j] == y;
                    assert(sub[j] == y);
                }
                if y == levels@[i as int] {
                    assert(sub[i as int] == y);
                }
            }
        }
        i = i + 1;
    }
    assert(levels@.subrange(0, levels@.len() as int) =~= levels@);
    out
}

/// The approvals asked for by a new proposal: each requested level, at time zero.
pub fn requested_from_levels(levels: &Vec<PermissionLevel>) -> (r: Vec<Approval>)
    requires
        levels_sorted(levels@),
    ensures
        approvals_sorted(r@),
        r@.len() == levels@.len(),
        forall|i: int| 0 <= i < r@.len() ==> #[trigger] r@[i] == (Approval {
            level: levels@[i],
            time: TimePoint { elapsed: crate::time::Microseconds(0) },
        }),
{
    let mut out: Vec<Approval> = Vec::new();
    let mut i: usize = 0;
    while i < levels.len()
        invariant
            i <= levels@.len(),
            levels_sorted(levels@),
            out@.len() == i,
            forall|j: int| 0 <= j < i ==> #[trigger] out@[j] == (Approval {
                level: levels@[j],
                time: TimePoint { elapsed: crate::time::Microseconds(0) },
            }),
        decreases levels@.len() - i,
    {
        out.push(Approval { level: levels[i], time: TimePoint::from_micros(0) });
        i = i + 1;
    }
    proof {
        assert forall|x: int, y: int| 0 <= x < y < out@.len() implies approval_lt(#[trigger] out@[x], #[trigger] out@[y]) by {
            assert(level_lt(levels@[x], levels@[y]));
        }
    }
    out
}

/// The approvals row of a new proposal: every requested level once, in
/// order, each asked for at time zero, and none given yet.
pub fn new_approvals(proposal_name: Name, requested: &Vec<PermissionLevel>) -> (r: ApprovalsInfo)
    ensures
        r.version == 0,
        r.proposal_name == proposal_name,
        r.well_formed(),
        r.provided_approvals@.len() == 0,
        forall|i: int| 0 <= i < r.requested_approvals@.len() ==> #[trigger] r.requested_approvals@[i].time
            == (TimePoint { elapsed: crate::time::Microseconds(0) }),
        forall|l: PermissionLevel| #[trigger] requested@.contains(l) <==> exists|i: int|
            0 <= i < r.requested_approvals@.len() && #[trigger] r.requested_approvals@[i].level == l,
{
    let levels = sorted_levels(requested);
    let approvals = requested_from_levels(&levels);
    let r = ApprovalsInfo {
        version: 0,
        proposal_name,
        requested_approvals: approvals,
        provided_approvals: Vec::new(),
    };
    proof {
        assert forall|l: PermissionLevel| #[trigger] requested@.contains(l) <==> exists|i: int|
            0 <= i < r.requested_approvals@.len() && #[trigger] r.requested_approvals@[i].level == l by {
            if requested@.contains(l) {
                assert(levels@.contains(l));
                let i = choose|i: int| 0 <= i < levels@.len() && levels@[i] == l;
                assert(r.requested_approvals@[i].level == l);
            }
            if exists|i: int| 0 <= i < r.requested_approvals@.len() && #[trigger] r.requested_approvals@[i].level == l {
                let i = choose|i: int| 0 <= i < r.requested_approvals@.len() && #[trigger] r.requested_approvals@[i].level == l;
                assert(levels@[i] == l);
                assert(levels@.contains(l));
            }
        }
    }
    r
}

/// The seconds of a time point, as a transaction's expiration counts them.
pub open spec fn secs_of(t: TimePoint) -> int {
    div_toward_zero(t.elapsed.0 as int, 1_000_000) as u32 as int
}

/// Checks a new proposal: the proposer signed, the transaction has not
/// expired and has no context-free actions, no proposal of that name exists,
/// and the requested levels would authorize it.
pub fn propose(
    proposer: Name,
    authorized: bool,
    expiration: TimePointSec,
    context_free_actions: usize,
    now: TimePoint,
    exists_already: bool,
    authorization_ok: bool,
) -> (r: Result<(), MsigError>)
    ensures
        r == if !authorized {
            Err(MsigError::MissingAuth(PermissionLevel { actor: proposer, permission: Name(0) }))
        } else if (expiration.utc_seconds as int) < secs_of(now) {
            Err(MsigError::Expired)
        } else if context_free_actions != 0 {
            Err(MsigError::ContextFreeInPropose)
        } else if exists_already {
            Err(MsigError::ProposalExists)
        } else if !authorization_ok {
            Err(MsigError::AuthorizationFailed)
        } else {
            Ok(())
        },
{
    if !authorized {
        return Err(MsigError::MissingAuth(PermissionLevel { actor: proposer, permission: Name(0) }));
    }
    let now_sec = TimePointSec::from_time_point(now);
    if expiration.utc_seconds < now_sec.utc_seconds {
        return Err(MsigError::Expired);
    }
    if context_free_actions != 0 {
        return Err(MsigError::ContextFreeInPropose);
    }
    if exists_already {
        return Err(MsigError::ProposalExists);
    }
    if !authorization_ok {
        return Err(MsigError::AuthorizationFailed);
    }
    Ok(())
}

/// Checks a cancellation: the canceler signed, the proposal exists, anyone
/// but the proposer waits for the transaction's expiration (`expiration` is
/// read only then), and the approvals row exists.
pub fn cancel(
    canceler: Name,
    proposer: Name,
    authorized: bool,
    proposal_exists: bool,
    expiration: TimePointSec,
    now: TimePoint,
    approvals_exist: bool,
) -> (r: Result<(), MsigError>)
    ensures
        r == if !authorized {
            Err(MsigError::MissingAuth(PermissionLevel { actor: canceler, permission: Name(0) }))
        } else if !proposal_exists {
            Err(MsigError::ProposalNotFound)
        } else if canceler != proposer && (expiration.utc_seconds as int) >= secs_of(now) {
            Err(MsigError::CannotCancelYet)
        } else if !approvals_exist {
            Err(MsigError::ProposalNotFound)
        } else {
            Ok(())
        },
{
    if !authorized {
        return Err(MsigError::MissingAuth(PermissionLevel { actor: canceler, permission: Name(0) }));
    }
    if !proposal_exists {
        return Err(MsigError::ProposalNotFound);
    }
    if canceler != proposer {
        let now_sec = TimePointSec::from_time_point(now);
        if expiration.utc_seconds >= now_sec.utc_seconds {
            return Err(MsigError::CannotCancelYet);
        }
    }
    if !approvals_exist {
        return Err(MsigError::ProposalNotFound);
    }
    Ok(())
}

/// Checks an execution before the approvals are counted: the executer signed,
/// the proposal exists, and its transaction has not expired and has no
/// context-free actions.
pub fn exec_precheck(
    executer: Name,
    authorized: bool,
    proposal_exists: bool,
    expiration: TimePointSec,
    context_free_actions: usize,
    now: TimePoint,
) -> (r: Result<(), MsigError>)
    ensures
        r == if !authorized {
            Err(MsigError::MissingAuth(PermissionLevel { actor: executer, permission: Name(0) }))
        } else if !proposal_exists {
            Err(MsigError::ProposalNotFound)
        } else if (expiration.utc_seconds as int) < secs_of(now) {
            Err(MsigError::Expired)
        } else if context_free_actions != 0 {
            Err(MsigError::ContextFreeInExec)
        } else {
            Ok(())
        },
{
    if !authorized {
        return Err(MsigError::MissingAuth(PermissionLevel { actor: executer, permission: Name(0) }));
    }
    if !proposal_exists {
        return Err(MsigError::ProposalNotFound);
    }
    let now_sec = TimePointSec::from_time_point(now);
    if expiration.utc_seconds < now_sec.utc_seconds {
        return Err(MsigError::Expired);
    }
    if context_free_actions != 0 {
        return Err(MsigError::ContextFreeInExec);
    }
    Ok(())
}

/// Checks an execution once the approvals are counted: they must authorize
/// the transaction, and it must not run before its earliest time; a proposal
/// without one may not have a delay.
pub fn exec_final_check(
    authorization_ok: bool,
    earliest_exec_time: Option<TimePoint>,
    delay_sec: u32,
    now: TimePoint,
) -> (r: Result<(), MsigError>)
    ensures
        r == if !authorization_ok {
            Err(MsigError::AuthorizationFailed)
        } else {
            match earliest_exec_time {
                Some(t) => if t.elapsed.0 > now.elapsed.0 {
                    Err(MsigError::TooEarly)
                } else {
                    Ok(())
                },
                None => if delay_sec != 0 {
                    Err(MsigError::OldProposalDelay)
                } else {
                    Ok(())
                },
            }
        },
{
    if !authorization_ok {
        return Err(MsigError::AuthorizationFailed);
    }
    match earliest_exec_time {
        Some(t) => {
            if t.elapsed.0 > now.elapsed.0 {
                Err(MsigError::TooEarly)
            } else {
                Ok(())
            }
        },
        None => {
            if delay_sec != 0 {
                Err(MsigError::OldProposalDelay)
            } else {
                Ok(())
            }
        },
    }
}

/// The last time an account invalidated the approvals it gave.
#[derive(Debug, Clone, Copy, PartialEq, Eq, Structural)]
pub struct Invalidation {
    pub account: Name,
    pub last_invalidation_time: TimePoint,
}

/// Invalidates every approval `account` gave so far: its invalidation row,
/// new or replaced, holds the time `now`, billed to the account.
pub fn invalidate(account: Name, authorized: bool, existing: Option<Invalidation>, now: TimePoint) -> (r:
    Result<RowWrite<Invalidation>, MsigError>)
    ensures
        r == if !authorized {
            Err(MsigError::MissingAuth(PermissionLevel { actor: account, permission: Name(0) }))
        } else {
            match existing {
                None => Ok(RowWrite::Insert { payer: account, row: Invalidation { account, last_invalidation_time: now } }),
                Some(i) => Ok(RowWrite::Update { payer: account, row: Invalidation { account: i.account, last_invalidation_time: now } }),
            }
        },
{
    if !authorized {
        return Err(MsigError::MissingAuth(PermissionLevel { actor: account, permission: Name(0) }));
    }
    match existing {
        None => Ok(RowWrite::Insert { payer: account, row: Invalidation { account, last_invalidation_time: now } }),
        Some(i) => Ok(RowWrite::Update { payer: account, row: Invalidation { account: i.account, last_invalidation_time: now } }),
    }
}


impl Packed for Approval {
    open spec fn packed(&self) -> Seq<u8> {
        self.level.packed() + self.time.packed()
    }

    proof fn lemma_unique(a: Self, b: Self, bytes: Seq<u8>, pos: int) {
        let ghost mut q = pos;
        lemma_prefix_concat(a.level.packed(), a.time.packed(), bytes, q);
        lemma_prefix_concat(b.level.packed(), b.time.packed(), bytes, q);
        <PermissionLevel as Packed>::lemma_unique(a.level, b.level, bytes, q);
        q = q + a.level.packed().len();
        <TimePoint as Packed>::lemma_unique(a.time, b.time, bytes, q);
    }

    open spec fn same_value(&self, other: &Self) -> bool {
        &&& self.level.same_value(&other.level)
        &&& self.time.same_value(&other.time)
    }

    proof fn lemma_injective(a: Self, b: Self) {
        let bytes = a.packed();
        let pos: int = 0;
        assert(bytes.subrange(0, bytes.len() as int) =~= bytes);
        let ghost mut q = pos;
        lemma_prefix_concat(a.level.packed(), a.time.packed(), bytes, q);
        lemma_prefix_concat(b.level.packed(), b.time.packed(), bytes, q);
        <PermissionLevel as Packed>::lemma_unique(a.level, b.level, bytes, q);
        <PermissionLevel as Packed>::lemma_injective(a.level, b.level);
        q = q + a.level.packed().len();
        <TimePoint as Packed>::lemma_unique(a.time, b.time, bytes, q);
        <TimePoint as Packed>::lemma_injective(a.time, b.time);
    }

    fn num_bytes(&self) -> (n: usize) {
        self.level.num_bytes() + self.time.num_bytes()
    }

    fn read(bytes: &[u8], pos: &mut usize) -> (r: Result<Self, ReadError>) {
        let mut p = *pos;
        let ghost q0: int = p as int;
        let x0 = match <PermissionLevel as Packed>::read(bytes, &mut p) {
            Ok(x) => x,
            Err(e) => {
                proof {
                    assert forall|v: Approval| !prefix_at(#[trigger] v.packed(), bytes@, *old(pos) as int) by {
                        if prefix_at(v.packed(), bytes@, *old(pos) as int) {
                            lemma_prefix_concat(v.level.packed(), v.time.packed(), bytes@, q0);
                        }
                    }
                }
                return Err(e);
            },
        };
        let ghost q1: int = p as int;
        let x1 = match <TimePoint as Packed>::read(bytes, &mut p) {
            Ok(x) => x,
            Err(e) => {
                proof {
                    assert forall|v: Approval| !prefix_at(#[trigger] v.packed(), bytes@, *old(pos) as int) by {
                        if prefix_at(v.packed(), bytes@, *old(pos) as int) {
                            lemma_prefix_concat(v.level.packed(), v.time.packed(), bytes@, q0);
                            <PermissionLevel as Packed>::lemma_unique(v.level, x0, bytes@, q0);
                        }
                    }
                }
                return Err(e);
            },
        };
        let v = Approval { level: x0, time: x1 };
        proof {
            lemma_prefix_concat(v.level.packed(), v.time.packed(), bytes@, q0);
        }
        *pos = p;
        Ok(v)
    }

    fn write(&self, bytes: &mut [u8], pos: &mut usize) -> (r: Result<(), WriteError>) {
        proof {
            assert(self.packed().len() <= 24);
        }
        let n = self.num_bytes();
        let len = bytes.len();
        if *pos > len || n > len - *pos {
            return Err(WriteError::NotEnoughSpace);
        }
        let mut p = *pos;
        let ghost start = *pos as int;
        let ghost buf0 = bytes@;
        let _ = self.level.write(bytes, &mut p);
        let _ = self.time.write(bytes, &mut p);
        proof {
            lemma_written_concat(buf0, start, self.level.packed(), self.time.packed());
        }
        proof {
            assert(self.level.packed() + self.time.packed() =~= self.packed());
        }
        *pos = p;
        Ok(())
    }
}

impl Packed for ApprovalsInfo {
    open spec fn packed(&self) -> Seq<u8> {
        self.version.packed() + (self.proposal_name.packed() + (self.requested_approvals.packed() + self.provided_approvals.packed()))
    }

    proof fn lemma_unique(a: Self, b: Self, bytes: Seq<u8>, pos: int) {
        let ghost mut q = pos;
        lemma_prefix_concat(a.version.packed(), a.proposal_name.packed() + (a.requested_approvals.packed() + a.provided_approvals.packed()), bytes, q);
        lemma_prefix_concat(b.version.packed(), b.proposal_name.packed() + (b.requested_approvals.packed() + b.provided_approvals.packed()), bytes, q);
        <u8 as Packed>::lemma_unique(a.version, b.version, bytes, q);
        q = q + a.version.packed().len();
        lemma_prefix_concat(a.proposal_name.packed(), a.requested_approvals.packed() + a.provided_approvals.packed(), bytes, q);
        lemma_prefix_concat(b.proposal_name.packed(), b.requested_approvals.packed() + b.provided_approvals.packed(), bytes, q);
        <Name as Packed>::lemma_unique(a.proposal_name, b.proposal_name, bytes, q);
        q = q + a.proposal_name.packed().len();
        lemma_prefix_concat(a.requested_approvals.packed(), a.provided_approvals.packed(), bytes, q);
        lemma_prefix_concat(b.requested_approvals.packed(), b.provided_approvals.packed(), bytes, q);
        <Vec<Approval> as Packed>::lemma_unique(a.requested_approvals, b.requested_approvals, bytes, q);
        q = q + a.requested_approvals.packed().len();
        <Vec<Approval> as Packed>::lemma_unique(a.provided_approvals, b.provided_approvals, bytes, q);
    }

    open spec fn same_value(&self, other: &Self) -> bool {
        &&& self.version.same_value(&other.version)
        &&& self.proposal_name.same_value(&other.proposal_name)
        &&& self.requested_approvals.same_value(&other.requested_approvals)
        &&& self.provided_approvals.same_value(&other.provided_approvals)
    }

    proof fn lemma_injective(a: Self, b: Self) {
        let bytes = a.packed();
        let pos: int = 0;
        assert(bytes.subrange(0, bytes.len() as int) =~= bytes);
        let ghost mut q = pos;
        lemma_prefix_concat(a.version.packed(), a.proposal_name.packed() + (a.requested_approvals.packed() + a.provided_approvals.packed()), bytes, q);
        lemma_prefix_concat(b.version.packed(), b.proposal_name.packed() + (b.requested_approvals.packed() + b.provided_approvals.packed()), bytes, q);
        <u8 as Packed>::lemma_unique(a.version, b.version, bytes, q);
        <u8 as Packed>::lemma_injective(a.version, b.version);
        q = q + a.version.packed().len();
        lemma_prefix_concat(a.proposal_name.packed(), a.requested_approvals.packed() + a.provided_approvals.packed(), bytes, q);
        lemma_prefix_concat(b.proposal_name.packed(), b.requested_approvals.packed() + b.provided_approvals.packed(), bytes, q);
        <Name as Packed>::lemma_unique(a.proposal_name, b.proposal_name, bytes, q);
        <Name as Packed>::lemma_injective(a.proposal_name, b.proposal_name);
        q = q + a.proposal_name.packed().len();
        lemma_prefix_concat(a.requested_approvals.packed(), a.provided_approvals.packed(), bytes, q);
        lemma_prefix_concat(b.requested_approvals.packed(), b.provided_approvals.packed(), bytes, q);
        <Vec<Approval> as Packed>::lemma_unique(a.requested_approvals, b.requested_approvals, bytes, q);
        <Vec<Approval> as Packed>::lemma_injective(a.requested_approvals, b.requested_approvals);
        q = q + a.requested_approvals.packed().len();
        <Vec<Approval> as Packed>::lemma_unique(a.provided_approvals, b.provided_approvals, bytes, q);
        <Vec<Approval> as Packed>::lemma_injective(a.provided_approvals, b.provided_approvals);
    }

    fn num_bytes(&self) -> (n: usize) {
        self.version.num_bytes() + self.proposal_name.num_bytes() + self.requested_approvals.num_bytes() + self.provided_approvals.num_bytes()
    }

    fn read(bytes: &[u8], pos: &mut usize) -> (r: Result<Self, ReadError>) {
        let mut p = *pos;
        let ghost q0: int = p as int;
        let x0 = match <u8 as Packed>::read(bytes, &mut p) {
            Ok(x) => x,
            Err(e) => {
                proof {
                    assert forall|v: ApprovalsInfo| !prefix_at(#[trigger] v.packed(), bytes@, *old(pos) as int) by {
                        if prefix_at(v.packed(), bytes@, *old(pos) as int) {
                            lemma_prefix_concat(v.version.packed(), v.proposal_name.packed() + (v.requested_approvals.packed() + v.provided_approvals.packed()), bytes@, q0);
                        }
                    }
                }
                return Err(e);
            },
        };
        let ghost q1: int = p as int;
        let x1 = match <Name as Packed>::read(bytes, &mut p) {
            Ok(x) => x,
            Err(e) => {
                proof {
                    assert forall|v: ApprovalsInfo| !prefix_at(#[trigger] v.packed(), bytes@, *old(pos) as int) by {
                        if prefix_at(v.packed(), bytes@, *old(pos) as int) {
                            lemma_prefix_concat(v.version.packed(), v.proposal_name.packed() + (v.requested_approvals.packed() + v.provided_approvals.packed()), bytes@, q0);
                            <u8 as Packed>::lemma_unique(v.version, x0, bytes@, q0);
                            lemma_prefix_concat(v.proposal_name.packed(), v.requested_approvals.packed() + v.provided_approvals.packed(), bytes@, q1);
                        }
                    }
                }
                return Err(e);
            },
        };
        let ghost q2: int = p as int;
        let x2 = match <Vec<Approval> as Packed>::read(bytes, &mut p) {
            Ok(x) => x,
            Err(e) => {
                proof {
                    assert forall|v: ApprovalsInfo| !prefix_at(#[trigger] v.packed(), bytes@, *old(pos) as int) by {
                        if prefix_at(v.packed(), bytes@, *old(pos) as int) {
                            lemma_prefix_concat(v.version.packed(), v.proposal_name.packed() + (v.requested_approvals.packed() + v.provided_approvals.packed()), bytes@, q0);
                            <u8 as Packed>::lemma_unique(v.version, x0, bytes@, q0);
                            lemma_prefix_concat(v.proposal_name.packed(), v.requested_approvals.packed() + v.provided_approvals.packed(), bytes@, q1);
                            <Name as Packed>::lemma_unique(v.proposal_name, x1, bytes@, q1);
                            lemma_prefix_concat(v.requested_approvals.packed(), v.provided_approvals.packed(), bytes@, q2);
                        }
                    }
                }
                return Err(e);
            },
        };
        let ghost q3: int = p as int;
        let x3 = match <Vec<Approval> as Packed>::read(bytes, &mut p) {
            Ok(x) => x,
            Err(e) => {
                proof {
                    assert forall|v: ApprovalsInfo| !prefix_at(#[trigger] v.packed(), bytes@, *old(pos) as int) by {
                        if prefix_at(v.packed(), bytes@, *old(pos) as int) {
                            lemma_prefix_concat(v.version.packed(), v.proposal_name.packed() + (v.requested_approvals.packed() + v.provided_approvals.packed()), bytes@, q0);
                            <u8 as Packed>::lemma_unique(v.version, x0, bytes@, q0);
                            lemma_prefix_concat(v.proposal_name.packed(), v.requested_approvals.packed() + v.provided_approvals.packed(), bytes@, q1);
                            <Name as Packed>::lemma_unique(v.proposal_name, x1, bytes@, q1);
                            lemma_prefix_concat(v.requested_approvals.packed(), v.provided_approvals.packed(), bytes@, q2);
                            <Vec<Approval> as Packed>::lemma_unique(v.requested_approvals, x2, bytes@, q2);
                        }
                    }
                }
                return Err(e);
            },
        };
        let v = ApprovalsInfo { version: x0, proposal_name: x1, requested_approvals: x2, provided_approvals: x3 };
        proof {
            lemma_prefix_concat(v.requested_approvals.packed(), v.provided_approvals.packed(), bytes@, q2);
            lemma_prefix_concat(v.proposal_name.packed(), v.requested_approvals.packed() + v.provided_approvals.packed(), bytes@, q1);
            lemma_prefix_concat(v.version.packed(), v.proposal_name.packed() + (v.requested_approvals.packed() + v.provided_approvals.packed()), bytes@, q0);
        }
        *pos = p;
        Ok(v)
    }

    fn write(&self, bytes: &mut [u8], pos: &mut usize) -> (r: Result<(), WriteError>) {
        let mut p = *pos;
        let ghost start = *pos as int;
        let ghost buf0 = bytes@;
        match self.version.write(bytes, &mut p) {
            Err(e) => {
                proof {
                    assert(self.packed() =~= self.version.packed() + (self.proposal_name.packed() + (self.requested_approvals.packed() + self.provided_approvals.packed())));
                }
                return Err(e);
            },
            Ok(()) => {},
        }
        match self.proposal_name.write(bytes, &mut p) {
            Err(e) => {
                proof {
                    assert(self.packed() =~= self.version.packed() + self.proposal_name.packed() + (self.requested_approvals.packed() + self.provided_approvals.packed()));
                }
                return Err(e);
            },
            Ok(()) => {},
        }
        proof {
            lemma_written_concat(buf0, start, self.version.packed(), self.proposal_name.packed());
        }
        match self.requested_approvals.write(bytes, &mut p) {
            Err(e) => {
                proof {
                    assert(self.packed() =~= self.version.packed() + self.proposal_name.packed() + self.requested_approvals.packed() + (self.provided_approvals.packed()));
                }
                return Err(e);
            },
            Ok(()) => {},
        }
        proof {
            lemma_written_concat(buf0, start, self.version.packed() + self.proposal_name.packed(), self.requested_approvals.packed());
        }
        match self.provided_approvals.write(bytes, &mut p) {
            Err(e) => {
                proof {
                    assert(self.packed() =~= self.version.packed() + self.proposal_name.packed() + self.requested_approvals.packed() + self.provided_approvals.packed());
                }
                return Err(e);
            },
            Ok(()) => {},
        }
        proof {
            lemma_written_concat(buf0, start, self.version.packed() + self.proposal_name.packed() + self.requested_approvals.packed(), self.provided_approvals.packed());
        }
        proof {
            assert(self.version.packed() + self.proposal_name.packed() + self.requested_approvals.packed() + self.provided_approvals.packed() =~= self.packed());
        }
        *pos = p;
        Ok(())
    }
}

impl Packed for Proposal {
    open spec fn packed(&self) -> Seq<u8> {
        self.proposal_name.packed() + (self.packed_transaction.packed() + self.earliest_exec_time.packed())
    }

    proof fn lemma_unique(a: Self, b: Self, bytes: Seq<u8>, pos: int) {
        let ghost mut q = pos;
        lemma_prefix_concat(a.proposal_name.packed(), a.packed_transaction.packed() + a.earliest_exec_time.packed(), bytes, q);
        lemma_prefix_concat(b.proposal_name.packed(), b.packed_transaction.packed() + b.earliest_exec_time.packed(), bytes, q);
        <Name as Packed>::lemma_unique(a.proposal_name, b.proposal_name, bytes, q);
        q = q + a.proposal_name.packed().len();
        lemma_prefix_concat(a.packed_transaction.packed(), a.earliest_exec_time.packed(), bytes, q);
        lemma_prefix_concat(b.packed_transaction.packed(), b.earliest_exec_time.packed(), bytes, q);
        <Vec<u8> as Packed>::lemma_unique(a.packed_transaction, b.packed_transaction, bytes, q);
        q = q + a.packed_transaction.packed().len();
        <Option<TimePoint> as Packed>::lemma_unique(a.earliest_exec_time, b.earliest_exec_time, bytes, q);
    }

    open spec fn same_value(&self, other: &Self) -> bool {
        &&& self.proposal_name.same_value(&other.proposal_name)
        &&& self.packed_transaction.same_value(&other.packed_transaction)
        &&& self.earliest_exec_time.same_value(&other.earliest_exec_time)
    }

    proof fn lemma_injective(a: Self, b: Self) {
        let bytes = a.packed();
        let pos: int = 0;
        assert(bytes.subrange(0, bytes.len() as int) =~= bytes);
        let ghost mut q = pos;
        lemma_prefix_concat(a.proposal_name.packed(), a.packed_transaction.packed() + a.earliest_exec_time.packed(), bytes, q);
        lemma_prefix_concat(b.proposal_name.packed(), b.packed_transaction.packed() + b.earliest_exec_time.packed(), bytes, q);
        <Name as Packed>::lemma_unique(a.proposal_name, b.proposal_name, bytes, q);
        <Name as Packed>::lemma_injective(a.proposal_name, b.proposal_name);
        q = q + a.proposal_name.packed().len();
        lemma_prefix_concat(a.packed_transaction.packed(), a.earliest_exec_time.packed(), bytes, q);
        lemma_prefix_concat(b.packed_transaction.packed(), b.earliest_exec_time.packed(), bytes, q);
        <Vec<u8> as Packed>::lemma_unique(a.packed_transaction, b.packed_transaction, bytes, q);
        <Vec<u8> as Packed>::lemma_injective(a.packed_transaction, b.packed_transaction);
        q = q + a.packed_transaction.packed().len();
        <Option<TimePoint> as Packed>::lemma_unique(a.earliest_exec_time, b.earliest_exec_time, bytes, q);
        <Option<TimePoint> as Packed>::lemma_injective(a.earliest_exec_time, b.earliest_exec_time);
    }

    fn num_bytes(&self) -> (n: usize) {
        self.proposal_name.num_bytes() + self.packed_transaction.num_bytes() + self.earliest_exec_time.num_bytes()
    }

    fn read(bytes: &[u8], pos: &mut usize) -> (r: Result<Self, ReadError>) {
        let mut p = *pos;
        let ghost q0: int = p as int;
        let x0 = match <Name as Packed>::read(bytes, &mut p) {
            Ok(x) => x,
            Err(e) => {
                proof {
                    assert forall|v: Proposal| !prefix_at(#[trigger] v.packed(), bytes@, *old(pos) as int) by {
                        if prefix_at(v.packed(), bytes@, *old(pos) as int) {
                            lemma_prefix_concat(v.proposal_name.packed(), v.packed_transaction.packed() + v.earliest_exec_time.packed(), bytes@, q0);
                        }
                    }
                }
                return Err(e);
            },
        };
        let ghost q1: int = p as int;
        let x1 = match <Vec<u8> as Packed>::read(bytes, &mut p) {
            Ok(x) => x,
            Err(e) => {
                proof {
                    assert forall|v: Proposal| !prefix_at(#[trigger] v.packed(), bytes@, *old(pos) as int) by {
                        if prefix_at(v.packed(), bytes@, *old(pos) as int) {
                            lemma_prefix_concat(v.proposal_name.packed(), v.packed_transaction.packed() + v.earliest_exec_time.packed(), bytes@, q0);
                            <Name as Packed>::lemma_unique(v.proposal_name, x0, bytes@, q0);
                            lemma_prefix_concat(v.packed_transaction.packed(), v.earliest_exec_time.packed(), bytes@, q1);
                        }
                    }
                }
                return Err(e);
            },
        };
        let ghost q2: int = p as int;
        let x2 = match <Option<TimePoint> as Packed>::read(bytes, &mut p) {
            Ok(x) => x,
            Err(e) => {
                proof {
                    assert forall|v: Proposal| !prefix_at(#[trigger] v.packed(), bytes@, *old(pos) as int) by {
                        if prefix_at(v.packed(), bytes@, *old(pos) as int) {
                            lemma_prefix_concat(v.proposal_name.packed(), v.packed_transaction.packed() + v.earliest_exec_time.packed(), bytes@, q0);
                            <Name as Packed>::lemma_unique(v.proposal_name, x0, bytes@, q0);
                            lemma_prefix_concat(v.packed_transaction.packed(), v.earliest_exec_time.packed(), bytes@, q1);
                            <Vec<u8> as Packed>::lemma_unique(v.packed_transaction, x1, bytes@, q1);
                        }
                    }
                }
                return Err(e);
            },
        };
        let v = Proposal { proposal_name: x0, packed_transaction: x1, earliest_exec_time: x2 };
        proof {
            lemma_prefix_concat(v.packed_transaction.packed(), v.earliest_exec_time.packed(), bytes@, q1);
            lemma_prefix_concat(v.proposal_name.packed(), v.packed_transaction.packed() + v.earliest_exec_time.packed(), bytes@, q0);
        }
        *pos = p;
        Ok(v)
    }

    fn write(&self, bytes: &mut [u8], pos: &mut usize) -> (r: Result<(), WriteError>) {
        let mut p = *pos;
        let ghost start = *pos as int;
        let ghost buf0 = bytes@;
        match self.proposal_name.write(bytes, &mut p) {
            Err(e) => {
                proof {
                    assert(self.packed() =~= self.proposal_name.packed() + (self.packed_transaction.packed() + self.earliest_exec_time.packed()));
                }
                return Err(e);
            },
            Ok(()) => {},
        }
        match self.packed_transaction.write(bytes, &mut p) {
            Err(e) => {
                proof {
                    assert(self.packed() =~= self.proposal_name.packed() + self.packed_transaction.packed() + (self.earliest_exec_time.packed()));
                }
                return Err(e);
            },
            Ok(()) => {},
        }
        proof {
            lemma_written_concat(buf0, start, self.proposal_name.packed(), self.packed_transaction.packed());
        }
        match self.earliest_exec_time.write(bytes, &mut p) {
            Err(e) => {
                proof {
                    assert(self.packed() =~= self.proposal_name.packed() + self.packed_transaction.packed() + self.earliest_exec_time.packed());
                }
                return Err(e);
            },
            Ok(()) => {},
        }
        proof {
            lemma_written_concat(buf0, start, self.proposal_name.packed() + self.packed_transaction.packed(), self.earliest_exec_time.packed());
        }
        proof {
            assert(self.proposal_name.packed() + self.packed_transaction.packed() + self.earliest_exec_time.packed() =~= self.packed());
        }
        *pos = p;
        Ok(())
    }
}

impl Packed for Invalidation {
    open spec fn packed(&self) -> Seq<u8> {
        self.account.packed() + self.last_invalidation_time.packed()
    }

    proof fn lemma_unique(a: Self, b: Self, bytes: Seq<u8>, pos: int) {
        let ghost mut q = pos;
        lemma_prefix_concat(a.account.packed(), a.last_invalidation_time.packed(), bytes, q);
        lemma_prefix_concat(b.account.packed(), b.last_invalidation_time.packed(), bytes, q);
        <Name as Packed>::lemma_unique(a.account, b.account, bytes, q);
        q = q + a.account.packed().len();
        <TimePoint as Packed>::lemma_unique(a.last_invalidation_time, b.last_invalidation_time, bytes, q);
    }

    open spec fn same_value(&self, other: &Self) -> bool {
        &&& self.account.same_value(&other.account)
        &&& self.last_invalidation_time.same_value(&other.last_invalidation_time)
    }

    proof fn lemma_injective(a: Self, b: Self) {
        let bytes = a.packed();
        let pos: int = 0;
        assert(bytes.subrange(0, bytes.len() as int) =~= bytes);
        let ghost mut q = pos;
        lemma_prefix_concat(a.account.packed(), a.last_invalidation_time.packed(), bytes, q);
        lemma_prefix_concat(b.account.packed(), b.last_invalidation_time.packed(), bytes, q);
        <Name as Packed>::lemma_unique(a.account, b.account, bytes, q);
        <Name as Packed>::lemma_injective(a.account, b.account);
        q = q + a.account.packed().len();
        <TimePoint as Packed>::lemma_unique(a.last_invalidation_time, b.last_invalidation_time, bytes, q);
        <TimePoint as Packed>::lemma_injective(a.last_invalidation_time, b.last_invalidation_time);
    }

    fn num_bytes(&self) -> (n: usize) {
        self.account.num_bytes() + self.last_invalidation_time.num_bytes()
    }

    fn read(bytes: &[u8], pos: &mut usize) -> (r: Result<Self, ReadError>) {
        let mut p = *pos;
        let ghost q0: int = p as int;
        let x0 = match <Name as Packed>::read(bytes, &mut p) {
            Ok(x) => x,
            Err(e) => {
                proof {
                    assert forall|v: Invalidation| !prefix_at(#[trigger] v.packed(), bytes@, *old(pos) as int) by {
                        if prefix_at(v.packed(), bytes@, *old(pos) as int) {
                            lemma_prefix_concat(v.account.packed(), v.last_invalidation_time.packed(), bytes@, q0);
                        }
                    }
                }
                return Err(e);
            },
        };
        let ghost q1: int = p as int;
        let x1 = match <TimePoint as Packed>::read(bytes, &mut p) {
            Ok(x) => x,
            Err(e) => {
                proof {
                    assert forall|v: Invalidation| !prefix_at(#[trigger] v.packed(), bytes@, *old(pos) as int) by {
                        if prefix_at(v.packed(), bytes@, *old(pos) as int) {
                            lemma_prefix_concat(v.account.packed(), v.last_invalidation_time.packed(), bytes@, q0);
                            <Name as Packed>::lemma_unique(v.account, x0, bytes@, q0);
                        }
                    }
                }
                return Err(e);
            },
        };
        let v = Invalidation { account: x0, last_invalidation_time: x1 };
        proof {
            lemma_prefix_concat(v.account.packed(), v.last_invalidation_time.packed(), bytes@, q0);
        }
        *pos = p;
        Ok(v)
    }

    fn write(&self, bytes: &mut [u8], pos: &mut usize) -> (r: Result<(), WriteError>) {
        proof {
            assert(self.packed().len() <= 16);
        }
        let n = self.num_bytes();
        let len = bytes.len();
        if *pos > len || n > len - *pos {
            return Err(WriteError::NotEnoughSpace);
        }
        let mut p = *pos;
        let ghost start = *pos as int;
        let ghost buf0 = bytes@;
        let _ = self.account.write(bytes, &mut p);
        let _ = self.last_invalidation_time.write(bytes, &mut p);
        proof {
            lemma_written_concat(buf0, start, self.account.packed(), self.last_invalidation_time.packed());
        }
        proof {
            assert(self.account.packed() + self.last_invalidation_time.packed() =~= self.packed());
        }
        *pos = p;
        Ok(())
    }
}

/// `Approval` is encoded as its fields, one after the other, in the order
/// `level`, `time`.
pub proof fn lemma_approval_layout(a: Approval)
    ensures
        a.packed() == a.level.packed() + a.time.packed(),
{
    assert(a.packed() =~= a.level.packed() + a.time.packed());
}

/// `ApprovalsInfo` is encoded as its fields, one after the other, in the order
/// `version`, `proposal_name`, `requested_approvals`, `provided_approvals`.
pub proof fn lemma_approvals_info_layout(a: ApprovalsInfo)
    ensures
        a.packed() == a.version.packed() + a.proposal_name.packed() + a.requested_approvals.packed() + a.provided_approvals.packed(),
{
    assert(a.packed() =~= a.version.packed() + a.proposal_name.packed() + a.requested_approvals.packed() + a.provided_approvals.packed());
}

/// `Proposal` is encoded as its fields, one after the other, in the order
/// `proposal_name`, `packed_transaction`, `earliest_exec_time`.
pub proof fn lemma_proposal_layout(a: Proposal)
    ensures
        a.packed() == a.proposal_name.packed() + a.packed_transaction.packed() + a.earliest_exec_time.packed(),
{
    assert(a.packed() =~= a.proposal_name.packed() + a.packed_transaction.packed() + a.earliest_exec_time.packed());
}

/// `Invalidation` is encoded as its fields, one after the other, in the order
/// `account`, `last_invalidation_time`.
pub proof fn lemma_invalidation_layout(a: Invalidation)
    ensures
        a.packed() == a.account.packed() + a.last_invalidation_time.packed(),
{
    assert(a.packed() =~= a.account.packed() + a.last_invalidation_time.packed());
}

} // verus!
