use vstd::prelude::*;

use crate::name::{lemma_name_value, name_matches, name_value_of};

verus! {

/// The actions of the system contract.
#[derive(Debug, Clone, Copy, PartialEq, Eq, Structural)]
pub enum SystemAction {
    Setpriv,
    Newaccount,
    Setabi,
    Setcode,
    Init,
    Buyrambsys,
    Buyramsys,
    Delegatebw,
    Undelegatebw,
    Refund,
    Onblock,
    Regproducer,
    Regproducer2,
    Unregprod,
    Regproxy,
}

/// Why an incoming action was refused.
#[derive(Debug, Clone, Copy, PartialEq, Eq, Structural)]
pub enum DispatchError {
    /// `onerror` is only valid from the system account.
    OnError,
    /// The contract has no action of that name.
    UnknownAction,
}

impl DispatchError {
    /// The text of the message, as a sequence of characters.
    pub open spec fn spec_message(&self) -> Seq<char> {
        match self {
            DispatchError::OnError => "onerror action's are only valid from the \"pulse\" system account"@,
            DispatchError::UnknownAction => "unknown action"@,
        }
    }

    /// The message with which the dispatch aborts.
    pub fn message(&self) -> (r: &'static str)
        ensures
            r@ == self.spec_message(),
    {
        match self {
            DispatchError::OnError => "onerror action's are only valid from the \"pulse\" system account",
            DispatchError::UnknownAction => "unknown action",
        }
    }
}

/// The value of the action name `onerror`.
pub const ONERROR: u64 = 11877535737890996224u64;

/// The action a name stands for, among the system contract's actions.
pub open spec fn action_of(action: u64) -> Option<SystemAction> {
    if action == 14029658124516851712u64 {
        Some(SystemAction::Setpriv)
    } else if action == 11148770977341390848u64 {
        Some(SystemAction::Newaccount)
    } else if action == 14029385431137648640u64 {
        Some(SystemAction::Setabi)
    } else if action == 14029427681804681216u64 {
        Some(SystemAction::Setcode)
    } else if action == 8421045207927095296u64 {
        Some(SystemAction::Init)
    } else if action == 4520896358201556992u64 {
        Some(SystemAction::Buyrambsys)
    } else if action == 4520896367425486848u64 {
        Some(SystemAction::Buyramsys)
    } else if action == 5378043540636893184u64 {
        Some(SystemAction::Delegatebw)
    } else if action == 15335505127214321600u64 {
        Some(SystemAction::Undelegatebw)
    } else if action == 13445401734377635840u64 {
        Some(SystemAction::Refund)
    } else if action == 11875739475730497536u64 {
        Some(SystemAction::Onblock)
    } else if action == 13445879116675067392u64 {
        Some(SystemAction::Regproducer)
    } else if action == 13445879116675067424u64 {
        Some(SystemAction::Regproducer2)
    } else if action == 15343383872893616128u64 {
        Some(SystemAction::Unregprod)
    } else if action == 13445879127475224576u64 {
        Some(SystemAction::Regproxy)
    } else {
        None
    }
}

fn lookup_action(action: u64) -> (r: Option<SystemAction>)
    ensures
        r == action_of(action),
{
    if action == 14029658124516851712u64 {
        Some(SystemAction::Setpriv)
    } else if action == 11148770977341390848u64 {
        Some(SystemAction::Newaccount)
    } else if action == 14029385431137648640u64 {
        Some(SystemAction::Setabi)
    } else if action == 14029427681804681216u64 {
        Some(SystemAction::Setcode)
    } else if action == 8421045207927095296u64 {
        Some(SystemAction::Init)
    } else if action == 4520896358201556992u64 {
        Some(SystemAction::Buyrambsys)
    } else if action == 4520896367425486848u64 {
        Some(SystemAction::Buyramsys)
    } else if action == 5378043540636893184u64 {
        Some(SystemAction::Delegatebw)
    } else if action == 15335505127214321600u64 {
        Some(SystemAction::Undelegatebw)
    } else if action == 13445401734377635840u64 {
        Some(SystemAction::Refund)
    } else if action == 11875739475730497536u64 {
        Some(SystemAction::Onblock)
    } else if action == 13445879116675067392u64 {
        Some(SystemAction::Regproducer)
    } else if action == 13445879116675067424u64 {
        Some(SystemAction::Regproducer2)
    } else if action == 15343383872893616128u64 {
        Some(SystemAction::Unregprod)
    } else if action == 13445879127475224576u64 {
        Some(SystemAction::Regproxy)
    } else {
        None
    }
}

/// Decides what an incoming action runs: `onerror` is refused; an action sent
/// to this contract runs when it is one of its actions and is refused
/// otherwise; a notification from another contract runs nothing.
pub fn route(receiver: u64, code: u64, action: u64) -> (r: Result<Option<SystemAction>, DispatchError>)
    ensures
        r == if action == ONERROR {
            Err(DispatchError::OnError)
        } else if code != receiver {
            Ok(None)
        } else {
            match action_of(action) {
                Some(a) => Ok(Some(a)),
                None => Err(DispatchError::UnknownAction),
            }
        },
{
    if action == ONERROR {
        return Err(DispatchError::OnError);
    }
    if code != receiver {
        return Ok(None);
    }
    match lookup_action(action) {
        Some(a) => Ok(Some(a)),
        None => Err(DispatchError::UnknownAction),
    }
}

/// The actions of the token contract.
#[derive(Debug, Clone, Copy, PartialEq, Eq, Structural)]
pub enum TokenAction {
    Create,
    Issue,
    Retire,
    Transfer,
    Open,
    Close,
}

/// The action a name stands for, among the actions of the token contract.
pub open spec fn token_action_of(action: u64) -> Option<TokenAction> {
    if action == 5031766152489992192u64 {
        Some(TokenAction::Create)
    } else if action == 8516769789752901632u64 {
        Some(TokenAction::Issue)
    } else if action == 13453074143696125952u64 {
        Some(TokenAction::Retire)
    } else if action == 14829575313431724032u64 {
        Some(TokenAction::Transfer)
    } else if action == 11913481165836648448u64 {
        Some(TokenAction::Open)
    } else if action == 4929617502180212736u64 {
        Some(TokenAction::Close)
    } else {
        None
    }
}

fn token_lookup(action: u64) -> (r: Option<TokenAction>)
    ensures
        r == token_action_of(action),
{
    if action == 5031766152489992192u64 {
        Some(TokenAction::Create)
    } else if action == 8516769789752901632u64 {
        Some(TokenAction::Issue)
    } else if action == 13453074143696125952u64 {
        Some(TokenAction::Retire)
    } else if action == 14829575313431724032u64 {
        Some(TokenAction::Transfer)
    } else if action == 11913481165836648448u64 {
        Some(TokenAction::Open)
    } else if action == 4929617502180212736u64 {
        Some(TokenAction::Close)
    } else {
        None
    }
}

/// Decides what an incoming action runs in the token contract: `onerror` is refused; an
/// action sent to this contract runs when it is one of its actions and is
/// refused otherwise; a notification from another contract runs nothing.
pub fn token_route(receiver: u64, code: u64, action: u64) -> (r: Result<Option<TokenAction>, DispatchError>)
    ensures
        r == if action == ONERROR {
            Err(DispatchError::OnError)
        } else if code != receiver {
            Ok(None)
        } else {
            match token_action_of(action) {
                Some(a) => Ok(Some(a)),
                None => Err(DispatchError::UnknownAction),
            }
        },
{
    if action == ONERROR {
        return Err(DispatchError::OnError);
    }
    if code != receiver {
        return Ok(None);
    }
    match token_lookup(action) {
        Some(a) => Ok(Some(a)),
        None => Err(DispatchError::UnknownAction),
    }
}

/// The actions of the multisig contract.
#[derive(Debug, Clone, Copy, PartialEq, Eq, Structural)]
pub enum MsigAction {
    Propose,
    Approve,
    Unapprove,
    Cancel,
    Exec,
    Invalidate,
}

/// The action a name stands for, among the actions of the multisig contract.
pub open spec fn msig_action_of(action: u64) -> Option<MsigAction> {
    if action == 12531646811867185152u64 {
        Some(MsigAction::Propose)
    } else if action == 3849304916161986560u64 {
        Some(MsigAction::Approve)
    } else if action == 15334012218401357824u64 {
        Some(MsigAction::Unapprove)
    } else if action == 4730614985703555072u64 {
        Some(MsigAction::Cancel)
    } else if action == 6292795316831780864u64 {
        Some(MsigAction::Exec)
    } else if action == 8428038897099505664u64 {
        Some(MsigAction::Invalidate)
    } else {
        None
    }
}

fn msig_lookup(action: u64) -> (r: Option<MsigAction>)
    ensures
        r == msig_action_of(action),
{
    if action == 12531646811867185152u64 {
        Some(MsigAction::Propose)
    } else if action == 3849304916161986560u64 {
        Some(MsigAction::Approve)
    } else if action == 15334012218401357824u64 {
        Some(MsigAction::Unapprove)
    } else if action == 4730614985703555072u64 {
        Some(MsigAction::Cancel)
    } else if action == 6292795316831780864u64 {
        Some(MsigAction::Exec)
    } else if action == 8428038897099505664u64 {
        Some(MsigAction::Invalidate)
    } else {
        None
    }
}

/// Decides what an incoming action runs in the multisig contract: `onerror` is refused; an
/// action sent to this contract runs when it is one of its actions and is
/// refused otherwise; a notification from another contract runs nothing.
pub fn msig_route(receiver: u64, code: u64, action: u64) -> (r: Result<Option<MsigAction>, DispatchError>)
    ensures
        r == if action == ONERROR {
            Err(DispatchError::OnError)
        } else if code != receiver {
            Ok(None)
        } else {
            match msig_action_of(action) {
                Some(a) => Ok(Some(a)),
                None => Err(DispatchError::UnknownAction),
            }
        },
{
    if action == ONERROR {
        return Err(DispatchError::OnError);
    }
    if code != receiver {
        return Ok(None);
    }
    match msig_lookup(action) {
        Some(a) => Ok(Some(a)),
        None => Err(DispatchError::UnknownAction),
    }
}

/// The actions of the bios contract.
#[derive(Debug, Clone, Copy, PartialEq, Eq, Structural)]
pub enum BiosAction {
    Setpriv,
    Setalimits,
    Reqauth,
    Setcode,
    Setabi,
    Newaccount,
    Updateauth,
    Deleteauth,
    Linkauth,
    Unlinkauth,
}

/// The action a name stands for, among the actions of the bios contract.
pub open spec fn bios_action_of(action: u64) -> Option<BiosAction> {
    if action == 14029658124516851712u64 {
        Some(BiosAction::Setpriv)
    } else if action == 14029390938607845376u64 {
        Some(BiosAction::Setalimits)
    } else if action == 13451246470292307968u64 {
        Some(BiosAction::Reqauth)
    } else if action == 14029427681804681216u64 {
        Some(BiosAction::Setcode)
    } else if action == 14029385431137648640u64 {
        Some(BiosAction::Setabi)
    } else if action == 11148770977341390848u64 {
        Some(BiosAction::Newaccount)
    } else if action == 15371467950649982976u64 {
        Some(BiosAction::Updateauth)
    } else if action == 5378050746259030016u64 {
        Some(BiosAction::Deleteauth)
    } else if action == 10063015651234021376u64 {
        Some(BiosAction::Linkauth)
    } else if action == 15340080295291076608u64 {
        Some(BiosAction::Unlinkauth)
    } else {
        None
    }
}

fn bios_lookup(action: u64) -> (r: Option<BiosAction>)
    ensures
        r == bios_action_of(action),
{
    if action == 14029658124516851712u64 {
        Some(BiosAction::Setpriv)
    } else if action == 14029390938607845376u64 {
        Some(BiosAction::Setalimits)
    } else if action == 13451246470292307968u64 {
        Some(BiosAction::Reqauth)
    } else if action == 14029427681804681216u64 {
        Some(BiosAction::Setcode)
    } else if action == 14029385431137648640u64 {
        Some(BiosAction::Setabi)
    } else if action == 11148770977341390848u64 {
        Some(BiosAction::Newaccount)
    } else if action == 15371467950649982976u64 {
        Some(BiosAction::Updateauth)
    } else if action == 5378050746259030016u64 {
        Some(BiosAction::Deleteauth)
    } else if action == 10063015651234021376u64 {
        Some(BiosAction::Linkauth)
    } else if action == 15340080295291076608u64 {
        Some(BiosAction::Unlinkauth)
    } else {
        None
    }
}

/// Decides what an incoming action runs in the bios contract: `onerror` is refused; an
/// action sent to this contract runs when it is one of its actions and is
/// refused otherwise; a notification from another contract runs nothing.
pub fn bios_route(receiver: u64, code: u64, action: u64) -> (r: Result<Option<BiosAction>, DispatchError>)
    ensures
        r == if action == ONERROR {
            Err(DispatchError::OnError)
        } else if code != receiver {
            Ok(None)
        } else {
            match bios_action_of(action) {
                Some(a) => Ok(Some(a)),
                None => Err(DispatchError::UnknownAction),
            }
        },
{
    if action == ONERROR {
        return Err(DispatchError::OnError);
    }
    if code != receiver {
        return Ok(None);
    }
    match bios_lookup(action) {
        Some(a) => Ok(Some(a)),
        None => Err(DispatchError::UnknownAction),
    }
}

/// The name, as characters, of each action of the system contract.
pub open spec fn system_action_name(a: SystemAction) -> Seq<u8> {
    match a {
        SystemAction::Setpriv => seq![115u8, 101, 116, 112, 114, 105, 118],
        SystemAction::Newaccount => seq![110u8, 101, 119, 97, 99, 99, 111, 117, 110, 116],
        SystemAction::Setabi => seq![115u8, 101, 116, 97, 98, 105],
        SystemAction::Setcode => seq![115u8, 101, 116, 99, 111, 100, 101],
        SystemAction::Init => seq![105u8, 110, 105, 116],
        SystemAction::Buyrambsys => seq![98u8, 117, 121, 114, 97, 109, 98, 115, 121, 115],
        SystemAction::Buyramsys => seq![98u8, 117, 121, 114, 97, 109, 115, 121, 115],
        SystemAction::Delegatebw => seq![100u8, 101, 108, 101, 103, 97, 116, 101, 98, 119],
        SystemAction::Undelegatebw => seq![117u8, 110, 100, 101, 108, 101, 103, 97, 116, 101, 98, 119],
        SystemAction::Refund => seq![114u8, 101, 102, 117, 110, 100],
        SystemAction::Onblock => seq![111u8, 110, 98, 108, 111, 99, 107],
        SystemAction::Regproducer => seq![114u8, 101, 103, 112, 114, 111, 100, 117, 99, 101, 114],
        SystemAction::Regproducer2 => seq![114u8, 101, 103, 112, 114, 111, 100, 117, 99, 101, 114, 50],
        SystemAction::Unregprod => seq![117u8, 110, 114, 101, 103, 112, 114, 111, 100],
        SystemAction::Regproxy => seq![114u8, 101, 103, 112, 114, 111, 120, 121],
    }
}

/// Every action of the system contract is reached by its own name: the value of the name
/// `system_action_name(a)` (as `Name` parsing gives it) is not `onerror`, and
/// `route` sends it, when it comes to the contract itself, to the action `a` and
/// to no other.
pub proof fn lemma_route_by_name(a: SystemAction, v: u64)
    requires
        name_matches(v, system_action_name(a)),
    ensures
        v != ONERROR,
        action_of(v) == Some(a),
{
    lemma_name_value(v, system_action_name(a));
    match a {
        SystemAction::Setpriv => {
            assert(name_value_of(system_action_name(a)) == 14029658124516851712u64);
        },
        SystemAction::Newaccount => {
            assert(name_value_of(system_action_name(a)) == 11148770977341390848u64);
        },
        SystemAction::Setabi => {
            assert(name_value_of(system_action_name(a)) == 14029385431137648640u64);
        },
        SystemAction::Setcode => {
            assert(name_value_of(system_action_name(a)) == 14029427681804681216u64);
        },
        SystemAction::Init => {
            assert(name_value_of(system_action_name(a)) == 8421045207927095296u64);
        },
        SystemAction::Buyrambsys => {
            assert(name_value_of(system_action_name(a)) == 4520896358201556992u64);
        },
        SystemAction::Buyramsys => {
            assert(name_value_of(system_action_name(a)) == 4520896367425486848u64);
        },
        SystemAction::Delegatebw => {
            assert(name_value_of(system_action_name(a)) == 5378043540636893184u64);
        },
        SystemAction::Undelegatebw => {
            assert(name_value_of(system_action_name(a)) == 15335505127214321600u64);
        },
        SystemAction::Refund => {
            assert(name_value_of(system_action_name(a)) == 13445401734377635840u64);
        },
        SystemAction::Onblock => {
            assert(name_value_of(system_action_name(a)) == 11875739475730497536u64);
        },
        SystemAction::Regproducer => {
            assert(name_value_of(system_action_name(a)) == 13445879116675067392u64);
        },
        SystemAction::Regproducer2 => {
            assert(name_value_of(system_action_name(a)) == 13445879116675067424u64);
        },
        SystemAction::Unregprod => {
            assert(name_value_of(system_action_name(a)) == 15343383872893616128u64);
        },
        SystemAction::Regproxy => {
            assert(name_value_of(system_action_name(a)) == 13445879127475224576u64);
        },
    }
}

/// The name, as characters, of each action of the token contract.
pub open spec fn token_action_name(a: TokenAction) -> Seq<u8> {
    match a {
        TokenAction::Create => seq![99u8, 114, 101, 97, 116, 101],
        TokenAction::Issue => seq![105u8, 115, 115, 117, 101],
        TokenAction::Retire => seq![114u8, 101, 116, 105, 114, 101],
        TokenAction::Transfer => seq![116u8, 114, 97, 110, 115, 102, 101, 114],
        TokenAction::Open => seq![111u8, 112, 101, 110],
        TokenAction::Close => seq![99u8, 108, 111, 115, 101],
    }
}

/// Every action of the token contract is reached by its own name: the value of the name
/// `token_action_name(a)` (as `Name` parsing gives it) is not `onerror`, and
/// `token_route` sends it, when it comes to the contract itself, to the action `a` and
/// to no other.
pub proof fn lemma_token_route_by_name(a: TokenAction, v: u64)
    requires
        name_matches(v, token_action_name(a)),
    ensures
        v != ONERROR,
        token_action_of(v) == Some(a),
{
    lemma_name_value(v, token_action_name(a));
    match a {
        TokenAction::Create => {
            assert(name_value_of(token_action_name(a)) == 5031766152489992192u64);
        },
        TokenAction::Issue => {
            assert(name_value_of(token_action_name(a)) == 8516769789752901632u64);
        },
        TokenAction::Retire => {
            assert(name_value_of(token_action_name(a)) == 13453074143696125952u64);
        },
        TokenAction::Transfer => {
            assert(name_value_of(token_action_name(a)) == 14829575313431724032u64);
        },
        TokenAction::Open => {
            assert(name_value_of(token_action_name(a)) == 11913481165836648448u64);
        },
        TokenAction::Close => {
            assert(name_value_of(token_action_name(a)) == 4929617502180212736u64);
        },
    }
}

/// The name, as characters, of each action of the multisig contract.
pub open spec fn msig_action_name(a: MsigAction) -> Seq<u8> {
    match a {
        MsigAction::Propose => seq![112u8, 114, 111, 112, 111, 115, 101],
        MsigAction::Approve => seq![97u8, 112, 112, 114, 111, 118, 101],
        MsigAction::Unapprove => seq![117u8, 110, 97, 112, 112, 114, 111, 118, 101],
        MsigAction::Cancel => seq![99u8, 97, 110, 99, 101, 108],
        MsigAction::Exec => seq![101u8, 120, 101, 99],
        MsigAction::Invalidate => seq![105u8, 110, 118, 97, 108, 105, 100, 97, 116, 101],
    }
}

/// Every action of the multisig contract is reached by its own name: the value of the name
/// `msig_action_name(a)` (as `Name` parsing gives it) is not `onerror`, and
/// `msig_route` sends it, when it comes to the contract itself, to the action `a` and
/// to no other.
pub proof fn lemma_msig_route_by_name(a: MsigAction, v: u64)
    requires
        name_matches(v, msig_action_name(a)),
    ensures
        v != ONERROR,
        msig_action_of(v) == Some(a),
{
    lemma_name_value(v, msig_action_name(a));
    match a {
        MsigAction::Propose => {
            assert(name_value_of(msig_action_name(a)) == 12531646811867185152u64);
        },
        MsigAction::Approve => {
            assert(name_value_of(msig_action_name(a)) == 3849304916161986560u64);
        },
        MsigAction::Unapprove => {
            assert(name_value_of(msig_action_name(a)) == 15334012218401357824u64);
        },
        MsigAction::Cancel => {
            assert(name_value_of(msig_action_name(a)) == 4730614985703555072u64);
        },
        MsigAction::Exec => {
            assert(name_value_of(msig_action_name(a)) == 6292795316831780864u64);
        },
        MsigAction::Invalidate => {
            assert(name_value_of(msig_action_name(a)) == 8428038897099505664u64);
        },
    }
}

/// The name, as characters, of each action of the bios contract.
pub open spec fn bios_action_name(a: BiosAction) -> Seq<u8> {
    match a {
        BiosAction::Setpriv => seq![115u8, 101, 116, 112, 114, 105, 118],
        BiosAction::Setalimits => seq![115u8, 101, 116, 97, 108, 105, 109, 105, 116, 115],
        BiosAction::Reqauth => seq![114u8, 101, 113, 97, 117, 116, 104],
        BiosAction::Setcode => seq![115u8, 101, 116, 99, 111, 100, 101],
        BiosAction::Setabi => seq![115u8, 101, 116, 97, 98, 105],
        BiosAction::Newaccount => seq![110u8, 101, 119, 97, 99, 99, 111, 117, 110, 116],
        BiosAction::Updateauth => seq![117u8, 112, 100, 97, 116, 101, 97, 117, 116, 104],
        BiosAction::Deleteauth => seq![100u8, 101, 108, 101, 116, 101, 97, 117, 116, 104],
        BiosAction::Linkauth => seq![108u8, 105, 110, 107, 97, 117, 116, 104],
        BiosAction::Unlinkauth => seq![117u8, 110, 108, 105, 110, 107, 97, 117, 116, 104],
    }
}

/// Every action of the bios contract is reached by its own name: the value of the name
/// `bios_action_name(a)` (as `Name` parsing gives it) is not `onerror`, and
/// `bios_route` sends it, when it comes to the contract itself, to the action `a` and
/// to no other.
pub proof fn lemma_bios_route_by_name(a: BiosAction, v: u64)
    requires
        name_matches(v, bios_action_name(a)),
    ensures
        v != ONERROR,
        bios_action_of(v) == Some(a),
{
    lemma_name_value(v, bios_action_name(a));
    match a {
        BiosAction::Setpriv => {
            assert(name_value_of(bios_action_name(a)) == 14029658124516851712u64);
        },
        BiosAction::Setalimits => {
            assert(name_value_of(bios_action_name(a)) == 14029390938607845376u64);
        },
        BiosAction::Reqauth => {
            assert(name_value_of(bios_action_name(a)) == 13451246470292307968u64);
        },
        BiosAction::Setcode => {
            assert(name_value_of(bios_action_name(a)) == 14029427681804681216u64);
        },
        BiosAction::Setabi => {
            assert(name_value_of(bios_action_name(a)) == 14029385431137648640u64);
        },
        BiosAction::Newaccount => {
            assert(name_value_of(bios_action_name(a)) == 11148770977341390848u64);
        },
        BiosAction::Updateauth => {
            assert(name_value_of(bios_action_name(a)) == 15371467950649982976u64);
        },
        BiosAction::Deleteauth => {
            assert(name_value_of(bios_action_name(a)) == 5378050746259030016u64);
        },
        BiosAction::Linkauth => {
            assert(name_value_of(bios_action_name(a)) == 10063015651234021376u64);
        },
        BiosAction::Unlinkauth => {
            assert(name_value_of(bios_action_name(a)) == 15340080295291076608u64);
        },
    }
}

} // verus!
