use vstd::prelude::*;

use crate::asset::Asset;
use crate::authority::{Authority, BlockHeader, BlockSigningAuthority, PermissionLevel};
use crate::codec::{lemma_prefix_concat, lemma_written_concat, prefix_at, Packed, ReadError, WriteError};
use crate::keys::{Checksum256, PublicKey};
use crate::name::Name;
use crate::symbol::Symbol;
use crate::transaction::Transaction;

verus! {

/// The arguments of the `setpriv` action, in the order they are encoded.
#[derive(Debug, Clone)]
pub struct SetprivArgs {
    pub account: Name,
    pub is_priv: u8,
}

/// The arguments of the `newaccount` action, in the order they are encoded.
#[derive(Debug, Clone)]
pub struct NewaccountArgs {
    pub creator: Name,
    pub name: Name,
    pub owner: Authority,
    pub active: Authority,
}

/// The arguments of the `setabi` action, in the order they are encoded.
#[derive(Debug, Clone)]
pub struct SetabiArgs {
    pub account: Name,
    pub abi: Vec<u8>,
}

/// The arguments of the `setcode` action, in the order they are encoded.
#[derive(Debug, Clone)]
pub struct SetcodeArgs {
    pub account: Name,
    pub vmtype: u8,
    pub vmversion: u8,
    pub code: Vec<u8>,
}

/// The arguments of the `init` action, in the order they are encoded.
#[derive(Debug, Clone)]
pub struct InitArgs {
    pub version: u8,
    pub core: Symbol,
}

/// The arguments of the `buyrambsys` action, in the order they are encoded.
#[derive(Debug, Clone)]
pub struct BuyrambsysArgs {
    pub payer: Name,
    pub receiver: Name,
    pub bytes: u32,
}

/// The arguments of the `buyramsys` action, in the order they are encoded.
#[derive(Debug, Clone)]
pub struct BuyramsysArgs {
    pub payer: Name,
    pub receiver: Name,
    pub quant: Asset,
}

/// The arguments of the `delegatebw` action, in the order they are encoded.
#[derive(Debug, Clone)]
pub struct DelegatebwArgs {
    pub from: Name,
    pub receiver: Name,
    pub stake_net_quantity: Asset,
    pub stake_cpu_quantity: Asset,
    pub transfer: bool,
}

/// The arguments of the `undelegatebw` action, in the order they are encoded.
#[derive(Debug, Clone)]
pub struct UndelegatebwArgs {
    pub from: Name,
    pub receiver: Name,
    pub unstake_net_quantity: Asset,
    pub unstake_cpu_quantity: Asset,
}

/// The arguments of the `refund` action, in the order they are encoded.
#[derive(Debug, Clone)]
pub struct RefundArgs {
    pub owner: Name,
}

/// The arguments of the `onblock` action, in the order they are encoded.
#[derive(Debug, Clone)]
pub struct OnblockArgs {
    pub header: BlockHeader,
}

/// The arguments of the `regproducer` action, in the order they are encoded.
#[derive(Debug, Clone)]
pub struct RegproducerArgs {
    pub producer: Name,
    pub producer_key: PublicKey,
    pub url: Vec<u8>,
    pub location: u16,
}

/// The arguments of the `regproducer2` action, in the order they are encoded.
#[derive(Debug, Clone)]
pub struct Regproducer2Args {
    pub producer: Name,
    pub producer_authority: BlockSigningAuthority,
    pub url: Vec<u8>,
    pub location: u16,
}

/// The arguments of the `unregprod` action, in the order they are encoded.
#[derive(Debug, Clone)]
pub struct UnregprodArgs {
    pub producer: Name,
}

/// The arguments of the `regproxy` action, in the order they are encoded.
#[derive(Debug, Clone)]
pub struct RegproxyArgs {
    pub proxy: Name,
    pub is_proxy: bool,
}

/// The arguments of the `create` action, in the order they are encoded.
#[derive(Debug, Clone)]
pub struct CreateArgs {
    pub issuer: Name,
    pub maximum_supply: Asset,
}

/// The arguments of the `issue` action, in the order they are encoded.
#[derive(Debug, Clone)]
pub struct IssueArgs {
    pub to: Name,
    pub quantity: Asset,
    pub memo: Vec<u8>,
}

/// The arguments of the `retire` action, in the order they are encoded.
#[derive(Debug, Clone)]
pub struct RetireArgs {
    pub quantity: Asset,
    pub memo: Vec<u8>,
}

/// The arguments of the `transfer` action, in the order they are encoded.
#[derive(Debug, Clone)]
pub struct TransferArgs {
    pub from: Name,
    pub to: Name,
    pub quantity: Asset,
    pub memo: Vec<u8>,
}

/// The arguments of the `open` action, in the order they are encoded.
#[derive(Debug, Clone)]
pub struct OpenArgs {
    pub owner: Name,
    pub symbol: Symbol,
    pub ram_payer: Name,
}

/// The arguments of the `close` action, in the order they are encoded.
#[derive(Debug, Clone)]
pub struct CloseArgs {
    pub owner: Name,
    pub symbol: Symbol,
}

/// The arguments of the `propose` action, in the order they are encoded.
#[derive(Debug, Clone)]
pub struct ProposeArgs {
    pub proposer: Name,
    pub proposal_name: Name,
    pub requested: Vec<PermissionLevel>,
    pub trx: Transaction,
}

/// The arguments of the `approve` action, in the order they are encoded.
#[derive(Debug, Clone)]
pub struct ApproveArgs {
    pub proposer: Name,
    pub proposal_name: Name,
    pub level: PermissionLevel,
    pub proposal_hash: Checksum256,
}

/// The arguments of the `unapprove` action, in the order they are encoded.
#[derive(Debug, Clone)]
pub struct UnapproveArgs {
    pub proposer: Name,
    pub proposal_name: Name,
    pub level: PermissionLevel,
}

/// The arguments of the `cancel` action, in the order they are encoded.
#[derive(Debug, Clone)]
pub struct CancelArgs {
    pub proposer: Name,
    pub proposal_name: Name,
    pub canceler: Name,
}

/// The arguments of the `exec` action, in the order they are encoded.
#[derive(Debug, Clone)]
pub struct ExecArgs {
    pub proposer: Name,
    pub proposal_name: Name,
    pub executer: Name,
}

/// The arguments of the `invalidate` action, in the order they are encoded.
#[derive(Debug, Clone)]
pub struct InvalidateArgs {
    pub account: Name,
}

/// The arguments of the `setalimits` action, in the order they are encoded.
#[derive(Debug, Clone)]
pub struct SetalimitsArgs {
    pub account: Name,
    pub ram_bytes: i64,
    pub net_weight: i64,
    pub cpu_weight: i64,
}

/// The arguments of the `reqauth` action, in the order they are encoded.
#[derive(Debug, Clone)]
pub struct ReqauthArgs {
    pub from: Name,
}

/// The arguments of the `updateauth` action, in the order they are encoded.
#[derive(Debug, Clone)]
pub struct UpdateauthArgs {
    pub account: Name,
    pub permission: Name,
    pub parent: Name,
    pub auth: Authority,
}

/// The arguments of the `deleteauth` action, in the order they are encoded.
#[derive(Debug, Clone)]
pub struct DeleteauthArgs {
    pub account: Name,
    pub permission: Name,
}

/// The arguments of the `linkauth` action, in the order they are encoded.
#[derive(Debug, Clone)]
pub struct LinkauthArgs {
    pub account: Name,
    pub code: Name,
    pub message_type: Name,
    pub requirement: Name,
}

/// The arguments of the `unlinkauth` action, in the order they are encoded.
#[derive(Debug, Clone)]
pub struct UnlinkauthArgs {
    pub account: Name,
    pub code: Name,
    pub message_type: Name,
}

impl Packed for SetprivArgs {
    open spec fn packed(&self) -> Seq<u8> {
        self.account.packed() + self.is_priv.packed()
    }

    proof fn lemma_unique(a: Self, b: Self, bytes: Seq<u8>, pos: int) {
        let ghost mut q = pos;
        lemma_prefix_concat(a.account.packed(), a.is_priv.packed(), bytes, q);
        lemma_prefix_concat(b.account.packed(), b.is_priv.packed(), bytes, q);
        <Name as Packed>::lemma_unique(a.account, b.account, bytes, q);
        q = q + a.account.packed().len();
        <u8 as Packed>::lemma_unique(a.is_priv, b.is_priv, bytes, q);
    }

    open spec fn same_value(&self, other: &Self) -> bool {
        &&& self.account.same_value(&other.account)
        &&& self.is_priv.same_value(&other.is_priv)
    }

    proof fn lemma_injective(a: Self, b: Self) {
        let bytes = a.packed();
        let pos: int = 0;
        assert(bytes.subrange(0, bytes.len() as int) =~= bytes);
        let ghost mut q = pos;
        lemma_prefix_concat(a.account.packed(), a.is_priv.packed(), bytes, q);
        lemma_prefix_concat(b.account.packed(), b.is_priv.packed(), bytes, q);
        <Name as Packed>::lemma_unique(a.account, b.account, bytes, q);
        <Name as Packed>::lemma_injective(a.account, b.account);
        q = q + a.account.packed().len();
        <u8 as Packed>::lemma_unique(a.is_priv, b.is_priv, bytes, q);
        <u8 as Packed>::lemma_injective(a.is_priv, b.is_priv);
    }

    fn num_bytes(&self) -> (n: usize) {
        self.account.num_bytes() + self.is_priv.num_bytes()
    }

    fn read(bytes: &[u8], pos: &mut usize) -> (r: Result<Self, ReadError>) {
        let mut p = *pos;
        let ghost q0: int = p as int;
        let x0 = match <Name as Packed>::read(bytes, &mut p) {
            Ok(x) => x,
            Err(e) => {
                proof {
                    assert forall|v: SetprivArgs| !prefix_at(#[trigger] v.packed(), bytes@, *old(pos) as int) by {
                        if prefix_at(v.packed(), bytes@, *old(pos) as int) {
                            lemma_prefix_concat(v.account.packed(), v.is_priv.packed(), bytes@, q0);
                        }
                    }
                }
                return Err(e);
            },
        };
        let ghost q1: int = p as int;
        let x1 = match <u8 as Packed>::read(bytes, &mut p) {
            Ok(x) => x,
            Err(e) => {
                proof {
                    assert forall|v: SetprivArgs| !prefix_at(#[trigger] v.packed(), bytes@, *old(pos) as int) by {
                        if prefix_at(v.packed(), bytes@, *old(pos) as int) {
                            lemma_prefix_concat(v.account.packed(), v.is_priv.packed(), bytes@, q0);
                            <Name as Packed>::lemma_unique(v.account, x0, bytes@, q0);
                        }
                    }
                }
                return Err(e);
            },
        };
        let v = SetprivArgs { account: x0, is_priv: x1 };
        proof {
            lemma_prefix_concat(v.account.packed(), v.is_priv.packed(), bytes@, q0);
        }
        *pos = p;
        Ok(v)
    }

    fn write(&self, bytes: &mut [u8], pos: &mut usize) -> (r: Result<(), WriteError>) {
        let mut p = *pos;
        let ghost start = *pos as int;
        let ghost buf0 = bytes@;
        match self.account.write(bytes, &mut p) {
            Err(e) => {
                proof {
                    assert(self.packed() =~= self.account.packed() + (self.is_priv.packed()));
                }
                return Err(e);
            },
            Ok(()) => {},
        }
        match self.is_priv.write(bytes, &mut p) {
            Err(e) => {
                proof {
                    assert(self.packed() =~= self.account.packed() + self.is_priv.packed());
                }
                return Err(e);
            },
            Ok(()) => {},
        }
        proof {
            lemma_written_concat(buf0, start, self.account.packed(), self.is_priv.packed());
        }
        proof {
            assert(self.account.packed() + self.is_priv.packed() =~= self.packed());
        }
        *pos = p;
        Ok(())
    }
}

impl Packed for NewaccountArgs {
    open spec fn packed(&self) -> Seq<u8> {
        self.creator.packed() + (self.name.packed() + (self.owner.packed() + self.active.packed()))
    }

    proof fn lemma_unique(a: Self, b: Self, bytes: Seq<u8>, pos: int) {
        let ghost mut q = pos;
        lemma_prefix_concat(a.creator.packed(), a.name.packed() + (a.owner.packed() + a.active.packed()), bytes, q);
        lemma_prefix_concat(b.creator.packed(), b.name.packed() + (b.owner.packed() + b.active.packed()), bytes, q);
        <Name as Packed>::lemma_unique(a.creator, b.creator, bytes, q);
        q = q + a.creator.packed().len();
        lemma_prefix_concat(a.name.packed(), a.owner.packed() + a.active.packed(), bytes, q);
        lemma_prefix_concat(b.name.packed(), b.owner.packed() + b.active.packed(), bytes, q);
        <Name as Packed>::lemma_unique(a.name, b.name, bytes, q);
        q = q + a.name.packed().len();
        lemma_prefix_concat(a.owner.packed(), a.active.packed(), bytes, q);
        lemma_prefix_concat(b.owner.packed(), b.active.packed(), bytes, q);
        <Authority as Packed>::lemma_unique(a.owner, b.owner, bytes, q);
        q = q + a.owner.packed().len();
        <Authority as Packed>::lemma_unique(a.active, b.active, bytes, q);
    }

    open spec fn same_value(&self, other: &Self) -> bool {
        &&& self.creator.same_value(&other.creator)
        &&& self.name.same_value(&other.name)
        &&& self.owner.same_value(&other.owner)
        &&& self.active.same_value(&other.active)
    }

    proof fn lemma_injective(a: Self, b: Self) {
        let bytes = a.packed();
        let pos: int = 0;
        assert(bytes.subrange(0, bytes.len() as int) =~= bytes);
        let ghost mut q = pos;
        lemma_prefix_concat(a.creator.packed(), a.name.packed() + (a.owner.packed() + a.active.packed()), bytes, q);
        lemma_prefix_concat(b.creator.packed(), b.name.packed() + (b.owner.packed() + b.active.packed()), bytes, q);
        <Name as Packed>::lemma_unique(a.creator, b.creator, bytes, q);
        <Name as Packed>::lemma_injective(a.creator, b.creator);
        q = q + a.creator.packed().len();
        lemma_prefix_concat(a.name.packed(), a.owner.packed() + a.active.packed(), bytes, q);
        lemma_prefix_concat(b.name.packed(), b.owner.packed() + b.active.packed(), bytes, q);
        <Name as Packed>::lemma_unique(a.name, b.name, bytes, q);
        <Name as Packed>::lemma_injective(a.name, b.name);
        q = q + a.name.packed().len();
        lemma_prefix_concat(a.owner.packed(), a.active.packed(), bytes, q);
        lemma_prefix_concat(b.owner.packed(), b.active.packed(), bytes, q);
        <Authority as Packed>::lemma_unique(a.owner, b.owner, bytes, q);
        <Authority as Packed>::lemma_injective(a.owner, b.owner);
        q = q + a.owner.packed().len();
        <Authority as Packed>::lemma_unique(a.active, b.active, bytes, q);
        <Authority as Packed>::lemma_injective(a.active, b.active);
    }

    fn num_bytes(&self) -> (n: usize) {
        self.creator.num_bytes() + self.name.num_bytes() + self.owner.num_bytes() + self.active.num_bytes()
    }

    fn read(bytes: &[u8], pos: &mut usize) -> (r: Result<Self, ReadError>) {
        let mut p = *pos;
        let ghost q0: int = p as int;
        let x0 = match <Name as Packed>::read(bytes, &mut p) {
            Ok(x) => x,
            Err(e) => {
                proof {
                    assert forall|v: NewaccountArgs| !prefix_at(#[trigger] v.packed(), bytes@, *old(pos) as int) by {
                        if prefix_at(v.packed(), bytes@, *old(pos) as int) {
                            lemma_prefix_concat(v.creator.packed(), v.name.packed() + (v.owner.packed() + v.active.packed()), bytes@, q0);
                        }
                    }
                }
                return Err(e);
            },
        };
        let ghost q1: int = p as int;
        let x1 = match <Name as Packed>::read(bytes, &mut p) {
            Ok(x) => x,
            Err(e) => {
                proof {
                    assert forall|v: NewaccountArgs| !prefix_at(#[trigger] v.packed(), bytes@, *old(pos) as int) by {
                        if prefix_at(v.packed(), bytes@, *old(pos) as int) {
                            lemma_prefix_concat(v.creator.packed(), v.name.packed() + (v.owner.packed() + v.active.packed()), bytes@, q0);
                            <Name as Packed>::lemma_unique(v.creator, x0, bytes@, q0);
                            lemma_prefix_concat(v.name.packed(), v.owner.packed() + v.active.packed(), bytes@, q1);
                        }
                    }
                }
                return Err(e);
            },
        };
        let ghost q2: int = p as int;
        let x2 = match <Authority as Packed>::read(bytes, &mut p) {
            Ok(x) => x,
            Err(e) => {
                proof {
                    assert forall|v: NewaccountArgs| !prefix_at(#[trigger] v.packed(), bytes@, *old(pos) as int) by {
                        if prefix_at(v.packed(), bytes@, *old(pos) as int) {
                            lemma_prefix_concat(v.creator.packed(), v.name.packed() + (v.owner.packed() + v.active.packed()), bytes@, q0);
                            <Name as Packed>::lemma_unique(v.creator, x0, bytes@, q0);
                            lemma_prefix_concat(v.name.packed(), v.owner.packed() + v.active.packed(), bytes@, q1);
                            <Name as Packed>::lemma_unique(v.name, x1, bytes@, q1);
                            lemma_prefix_concat(v.owner.packed(), v.active.packed(), bytes@, q2);
                        }
                    }
                }
                return Err(e);
            },
        };
        let ghost q3: int = p as int;
        let x3 = match <Authority as Packed>::read(bytes, &mut p) {
            Ok(x) => x,
            Err(e) => {
                proof {
                    assert forall|v: NewaccountArgs| !prefix_at(#[trigger] v.packed(), bytes@, *old(pos) as int) by {
                        if prefix_at(v.packed(), bytes@, *old(pos) as int) {
                            lemma_prefix_concat(v.creator.packed(), v.name.packed() + (v.owner.packed() + v.active.packed()), bytes@, q0);
                            <Name as Packed>::lemma_unique(v.creator, x0, bytes@, q0);
                            lemma_prefix_concat(v.name.packed(), v.owner.packed() + v.active.packed(), bytes@, q1);
                            <Name as Packed>::lemma_unique(v.name, x1, bytes@, q1);
                            lemma_prefix_concat(v.owner.packed(), v.active.packed(), bytes@, q2);
                            <Authority as Packed>::lemma_unique(v.owner, x2, bytes@, q2);
                        }
                    }
                }
                return Err(e);
            },
        };
        let v = NewaccountArgs { creator: x0, name: x1, owner: x2, active: x3 };
        proof {
            lemma_prefix_concat(v.owner.packed(), v.active.packed(), bytes@, q2);
            lemma_prefix_concat(v.name.packed(), v.owner.packed() + v.active.packed(), bytes@, q1);
            lemma_prefix_concat(v.creator.packed(), v.name.packed() + (v.owner.packed() + v.active.packed()), bytes@, q0);
        }
        *pos = p;
        Ok(v)
    }

    fn write(&self, bytes: &mut [u8], pos: &mut usize) -> (r: Result<(), WriteError>) {
        let mut p = *pos;
        let ghost start = *pos as int;
        let ghost buf0 = bytes@;
        match self.creator.write(bytes, &mut p) {
            Err(e) => {
                proof {
                    assert(self.packed() =~= self.creator.packed() + (self.name.packed() + (self.owner.packed() + self.active.packed())));
                }
                return Err(e);
            },
            Ok(()) => {},
        }
        match self.name.write(bytes, &mut p) {
            Err(e) => {
                proof {
                    assert(self.packed() =~= self.creator.packed() + self.name.packed() + (self.owner.packed() + self.active.packed()));
                }
                return Err(e);
            },
            Ok(()) => {},
        }
        proof {
            lemma_written_concat(buf0, start, self.creator.packed(), self.name.packed());
        }
        match self.owner.write(bytes, &mut p) {
            Err(e) => {
                proof {
                    assert(self.packed() =~= self.creator.packed() + self.name.packed() + self.owner.packed() + (self.active.packed()));
                }
                return Err(e);
            },
            Ok(()) => {},
        }
        proof {
            lemma_written_concat(buf0, start, self.creator.packed() + self.name.packed(), self.owner.packed());
        }
        match self.active.write(bytes, &mut p) {
            Err(e) => {
                proof {
                    assert(self.packed() =~= self.creator.packed() + self.name.packed() + self.owner.packed() + self.active.packed());
                }
                return Err(e);
            },
            Ok(()) => {},
        }
        proof {
            lemma_written_concat(buf0, start, self.creator.packed() + self.name.packed() + self.owner.packed(), self.active.packed());
        }
        proof {
            assert(self.creator.packed() + self.name.packed() + self.owner.packed() + self.active.packed() =~= self.packed());
        }
        *pos = p;
        Ok(())
    }
}

impl Packed for SetabiArgs {
    open spec fn packed(&self) -> Seq<u8> {
        self.account.packed() + self.abi.packed()
    }

    proof fn lemma_unique(a: Self, b: Self, bytes: Seq<u8>, pos: int) {
        let ghost mut q = pos;
        lemma_prefix_concat(a.account.packed(), a.abi.packed(), bytes, q);
        lemma_prefix_concat(b.account.packed(), b.abi.packed(), bytes, q);
        <Name as Packed>::lemma_unique(a.account, b.account, bytes, q);
        q = q + a.account.packed().len();
        <Vec<u8> as Packed>::lemma_unique(a.abi, b.abi, bytes, q);
    }

    open spec fn same_value(&self, other: &Self) -> bool {
        &&& self.account.same_value(&other.account)
        &&& self.abi.same_value(&other.abi)
    }

    proof fn lemma_injective(a: Self, b: Self) {
        let bytes = a.packed();
        let pos: int = 0;
        assert(bytes.subrange(0, bytes.len() as int) =~= bytes);
        let ghost mut q = pos;
        lemma_prefix_concat(a.account.packed(), a.abi.packed(), bytes, q);
        lemma_prefix_concat(b.account.packed(), b.abi.packed(), bytes, q);
        <Name as Packed>::lemma_unique(a.account, b.account, bytes, q);
        <Name as Packed>::lemma_injective(a.account, b.account);
        q = q + a.account.packed().len();
        <Vec<u8> as Packed>::lemma_unique(a.abi, b.abi, bytes, q);
        <Vec<u8> as Packed>::lemma_injective(a.abi, b.abi);
    }

    fn num_bytes(&self) -> (n: usize) {
        self.account.num_bytes() + self.abi.num_bytes()
    }

    fn read(bytes: &[u8], pos: &mut usize) -> (r: Result<Self, ReadError>) {
        let mut p = *pos;
        let ghost q0: int = p as int;
        let x0 = match <Name as Packed>::read(bytes, &mut p) {
            Ok(x) => x,
            Err(e) => {
                proof {
                    assert forall|v: SetabiArgs| !prefix_at(#[trigger] v.packed(), bytes@, *old(pos) as int) by {
                        if prefix_at(v.packed(), bytes@, *old(pos) as int) {
                            lemma_prefix_concat(v.account.packed(), v.abi.packed(), bytes@, q0);
                        }
                    }
                }
                return Err(e);
            },
        };
        let ghost q1: int = p as int;
        let x1 = match <Vec<u8> as Packed>::read(bytes, &mut p) {
            Ok(x) => x,
            Err(e) => {
                proof {
                    assert forall|v: SetabiArgs| !prefix_at(#[trigger] v.packed(), bytes@, *old(pos) as int) by {
                        if prefix_at(v.packed(), bytes@, *old(pos) as int) {
                            lemma_prefix_concat(v.account.packed(), v.abi.packed(), bytes@, q0);
                            <Name as Packed>::lemma_unique(v.account, x0, bytes@, q0);
                        }
                    }
                }
                return Err(e);
            },
        };
        let v = SetabiArgs { account: x0, abi: x1 };
        proof {
            lemma_prefix_concat(v.account.packed(), v.abi.packed(), bytes@, q0);
        }
        *pos = p;
        Ok(v)
    }

    fn write(&self, bytes: &mut [u8], pos: &mut usize) -> (r: Result<(), WriteError>) {
        let mut p = *pos;
        let ghost start = *pos as int;
        let ghost buf0 = bytes@;
        match self.account.write(bytes, &mut p) {
            Err(e) => {
                proof {
                    assert(self.packed() =~= self.account.packed() + (self.abi.packed()));
                }
                return Err(e);
            },
            Ok(()) => {},
        }
        match self.abi.write(bytes, &mut p) {
            Err(e) => {
                proof {
                    assert(self.packed() =~= self.account.packed() + self.abi.packed());
                }
                return Err(e);
            },
            Ok(()) => {},
        }
        proof {
            lemma_written_concat(buf0, start, self.account.packed(), self.abi.packed());
        }
        proof {
            assert(self.account.packed() + self.abi.packed() =~= self.packed());
        }
        *pos = p;
        Ok(())
    }
}

impl Packed for SetcodeArgs {
    open spec fn packed(&self) -> Seq<u8> {
        self.account.packed() + (self.vmtype.packed() + (self.vmversion.packed() + self.code.packed()))
    }

    proof fn lemma_unique(a: Self, b: Self, bytes: Seq<u8>, pos: int) {
        let ghost mut q = pos;
        lemma_prefix_concat(a.account.packed(), a.vmtype.packed() + (a.vmversion.packed() + a.code.packed()), bytes, q);
        lemma_prefix_concat(b.account.packed(), b.vmtype.packed() + (b.vmversion.packed() + b.code.packed()), bytes, q);
        <Name as Packed>::lemma_unique(a.account, b.account, bytes, q);
        q = q + a.account.packed().len();
        lemma_prefix_concat(a.vmtype.packed(), a.vmversion.packed() + a.code.packed(), bytes, q);
        lemma_prefix_concat(b.vmtype.packed(), b.vmversion.packed() + b.code.packed(), bytes, q);
        <u8 as Packed>::lemma_unique(a.vmtype, b.vmtype, bytes, q);
        q = q + a.vmtype.packed().len();
        lemma_prefix_concat(a.vmversion.packed(), a.code.packed(), bytes, q);
        lemma_prefix_concat(b.vmversion.packed(), b.code.packed(), bytes, q);
        <u8 as Packed>::lemma_unique(a.vmversion, b.vmversion, bytes, q);
        q = q + a.vmversion.packed().len();
        <Vec<u8> as Packed>::lemma_unique(a.code, b.code, bytes, q);
    }

    open spec fn same_value(&self, other: &Self) -> bool {
        &&& self.account.same_value(&other.account)
        &&& self.vmtype.same_value(&other.vmtype)
        &&& self.vmversion.same_value(&other.vmversion)
        &&& self.code.same_value(&other.code)
    }

    proof fn lemma_injective(a: Self, b: Self) {
        let bytes = a.packed();
        let pos: int = 0;
        assert(bytes.subrange(0, bytes.len() as int) =~= bytes);
        let ghost mut q = pos;
        lemma_prefix_concat(a.account.packed(), a.vmtype.packed() + (a.vmversion.packed() + a.code.packed()), bytes, q);
        lemma_prefix_concat(b.account.packed(), b.vmtype.packed() + (b.vmversion.packed() + b.code.packed()), bytes, q);
        <Name as Packed>::lemma_unique(a.account, b.account, bytes, q);
        <Name as Packed>::lemma_injective(a.account, b.account);
        q = q + a.account.packed().len();
        lemma_prefix_concat(a.vmtype.packed(), a.vmversion.packed() + a.code.packed(), bytes, q);
        lemma_prefix_concat(b.vmtype.packed(), b.vmversion.packed() + b.code.packed(), bytes, q);
        <u8 as Packed>::lemma_unique(a.vmtype, b.vmtype, bytes, q);
        <u8 as Packed>::lemma_injective(a.vmtype, b.vmtype);
        q = q + a.vmtype.packed().len();
        lemma_prefix_concat(a.vmversion.packed(), a.code.packed(), bytes, q);
        lemma_prefix_concat(b.vmversion.packed(), b.code.packed(), bytes, q);
        <u8 as Packed>::lemma_unique(a.vmversion, b.vmversion, bytes, q);
        <u8 as Packed>::lemma_injective(a.vmversion, b.vmversion);
        q = q + a.vmversion.packed().len();
        <Vec<u8> as Packed>::lemma_unique(a.code, b.code, bytes, q);
        <Vec<u8> as Packed>::lemma_injective(a.code, b.code);
    }

    fn num_bytes(&self) -> (n: usize) {
        self.account.num_bytes() + self.vmtype.num_bytes() + self.vmversion.num_bytes() + self.code.num_bytes()
    }

    fn read(bytes: &[u8], pos: &mut usize) -> (r: Result<Self, ReadError>) {
        let mut p = *pos;
        let ghost q0: int = p as int;
        let x0 = match <Name as Packed>::read(bytes, &mut p) {
            Ok(x) => x,
            Err(e) => {
                proof {
                    assert forall|v: SetcodeArgs| !prefix_at(#[trigger] v.packed(), bytes@, *old(pos) as int) by {
                        if prefix_at(v.packed(), bytes@, *old(pos) as int) {
                            lemma_prefix_concat(v.account.packed(), v.vmtype.packed() + (v.vmversion.packed() + v.code.packed()), bytes@, q0);
                        }
                    }
                }
                return Err(e);
            },
        };
        let ghost q1: int = p as int;
        let x1 = match <u8 as Packed>::read(bytes, &mut p) {
            Ok(x) => x,
            Err(e) => {
                proof {
                    assert forall|v: SetcodeArgs| !prefix_at(#[trigger] v.packed(), bytes@, *old(pos) as int) by {
                        if prefix_at(v.packed(), bytes@, *old(pos) as int) {
                            lemma_prefix_concat(v.account.packed(), v.vmtype.packed() + (v.vmversion.packed() + v.code.packed()), bytes@, q0);
                            <Name as Packed>::lemma_unique(v.account, x0, bytes@, q0);
                            lemma_prefix_concat(v.vmtype.packed(), v.vmversion.packed() + v.code.packed(), bytes@, q1);
                        }
                    }
                }
                return Err(e);
            },
        };
        let ghost q2: int = p as int;
        let x2 = match <u8 as Packed>::read(bytes, &mut p) {
            Ok(x) => x,
            Err(e) => {
                proof {
                    assert forall|v: SetcodeArgs| !prefix_at(#[trigger] v.packed(), bytes@, *old(pos) as int) by {
                        if prefix_at(v.packed(), bytes@, *old(pos) as int) {
                            lemma_prefix_concat(v.account.packed(), v.vmtype.packed() + (v.vmversion.packed() + v.code.packed()), bytes@, q0);
                            <Name as Packed>::lemma_unique(v.account, x0, bytes@, q0);
                            lemma_prefix_concat(v.vmtype.packed(), v.vmversion.packed() + v.code.packed(), bytes@, q1);
                            <u8 as Packed>::lemma_unique(v.vmtype, x1, bytes@, q1);
                            lemma_prefix_concat(v.vmversion.packed(), v.code.packed(), bytes@, q2);
                        }
                    }
                }
                return Err(e);
            },
        };
        let ghost q3: int = p as int;
        let x3 = match <Vec<u8> as Packed>::read(bytes, &mut p) {
            Ok(x) => x,
            Err(e) => {
                proof {
                    assert forall|v: SetcodeArgs| !prefix_at(#[trigger] v.packed(), bytes@, *old(pos) as int) by {
                        if prefix_at(v.packed(), bytes@, *old(pos) as int) {
                            lemma_prefix_concat(v.account.packed(), v.vmtype.packed() + (v.vmversion.packed() + v.code.packed()), bytes@, q0);
                            <Name as Packed>::lemma_unique(v.account, x0, bytes@, q0);
                            lemma_prefix_concat(v.vmtype.packed(), v.vmversion.packed() + v.code.packed(), bytes@, q1);
                            <u8 as Packed>::lemma_unique(v.vmtype, x1, bytes@, q1);
                            lemma_prefix_concat(v.vmversion.packed(), v.code.packed(), bytes@, q2);
                            <u8 as Packed>::lemma_unique(v.vmversion, x2, bytes@, q2);
                        }
                    }
                }
                return Err(e);
            },
        };
        let v = SetcodeArgs { account: x0, vmtype: x1, vmversion: x2, code: x3 };
        proof {
            lemma_prefix_concat(v.vmversion.packed(), v.code.packed(), bytes@, q2);
            lemma_prefix_concat(v.vmtype.packed(), v.vmversion.packed() + v.code.packed(), bytes@, q1);
            lemma_prefix_concat(v.account.packed(), v.vmtype.packed() + (v.vmversion.packed() + v.code.packed()), bytes@, q0);
        }
        *pos = p;
        Ok(v)
    }

    fn write(&self, bytes: &mut [u8], pos: &mut usize) -> (r: Result<(), WriteError>) {
        let mut p = *pos;
        let ghost start = *pos as int;
        let ghost buf0 = bytes@;
        match self.account.write(bytes, &mut p) {
            Err(e) => {
                proof {
                    assert(self.packed() =~= self.account.packed() + (self.vmtype.packed() + (self.vmversion.packed() + self.code.packed())));
                }
                return Err(e);
            },
            Ok(()) => {},
        }
        match self.vmtype.write(bytes, &mut p) {
            Err(e) => {
                proof {
                    assert(self.packed() =~= self.account.packed() + self.vmtype.packed() + (self.vmversion.packed() + self.code.packed()));
                }
                return Err(e);
            },
            Ok(()) => {},
        }
        proof {
            lemma_written_concat(buf0, start, self.account.packed(), self.vmtype.packed());
        }
        match self.vmversion.write(bytes, &mut p) {
            Err(e) => {
                proof {
                    assert(self.packed() =~= self.account.packed() + self.vmtype.packed() + self.vmversion.packed() + (self.code.packed()));
                }
                return Err(e);
            },
            Ok(()) => {},
        }
        proof {
            lemma_written_concat(buf0, start, self.account.packed() + self.vmtype.packed(), self.vmversion.packed());
        }
        match self.code.write(bytes, &mut p) {
            Err(e) => {
                proof {
                    assert(self.packed() =~= self.account.packed() + self.vmtype.packed() + self.vmversion.packed() + self.code.packed());
                }
                return Err(e);
            },
            Ok(()) => {},
        }
        proof {
            lemma_written_concat(buf0, start, self.account.packed() + self.vmtype.packed() + self.vmversion.packed(), self.code.packed());
        }
        proof {
            assert(self.account.packed() + self.vmtype.packed() + self.vmversion.packed() + self.code.packed() =~= self.packed());
        }
        *pos = p;
        Ok(())
    }
}

impl Packed for InitArgs {
    open spec fn packed(&self) -> Seq<u8> {
        self.version.packed() + self.core.packed()
    }

    proof fn lemma_unique(a: Self, b: Self, bytes: Seq<u8>, pos: int) {
        let ghost mut q = pos;
        lemma_prefix_concat(a.version.packed(), a.core.packed(), bytes, q);
        lemma_prefix_concat(b.version.packed(), b.core.packed(), bytes, q);
        <u8 as Packed>::lemma_unique(a.version, b.version, bytes, q);
        q = q + a.version.packed().len();
        <Symbol as Packed>::lemma_unique(a.core, b.core, bytes, q);
    }

    open spec fn same_value(&self, other: &Self) -> bool {
        &&& self.version.same_value(&other.version)
        &&& self.core.same_value(&other.core)
    }

    proof fn lemma_injective(a: Self, b: Self) {
        let bytes = a.packed();
        let pos: int = 0;
        assert(bytes.subrange(0, bytes.len() as int) =~= bytes);
        let ghost mut q = pos;
        lemma_prefix_concat(a.version.packed(), a.core.packed(), bytes, q);
        lemma_prefix_concat(b.version.packed(), b.core.packed(), bytes, q);
        <u8 as Packed>::lemma_unique(a.version, b.version, bytes, q);
        <u8 as Packed>::lemma_injective(a.version, b.version);
        q = q + a.version.packed().len();
        <Symbol as Packed>::lemma_unique(a.core, b.core, bytes, q);
        <Symbol as Packed>::lemma_injective(a.core, b.core);
    }

    fn num_bytes(&self) -> (n: usize) {
        self.version.num_bytes() + self.core.num_bytes()
    }

    fn read(bytes: &[u8], pos: &mut usize) -> (r: Result<Self, ReadError>) {
        let mut p = *pos;
        let ghost q0: int = p as int;
        let x0 = match <u8 as Packed>::read(bytes, &mut p) {
            Ok(x) => x,
            Err(e) => {
                proof {
                    assert forall|v: InitArgs| !prefix_at(#[trigger] v.packed(), bytes@, *old(pos) as int) by {
                        if prefix_at(v.packed(), bytes@, *old(pos) as int) {
                            lemma_prefix_concat(v.version.packed(), v.core.packed(), bytes@, q0);
                        }
                    }
                }
                return Err(e);
            },
        };
        let ghost q1: int = p as int;
        let x1 = match <Symbol as Packed>::read(bytes, &mut p) {
            Ok(x) => x,
            Err(e) => {
                proof {
                    assert forall|v: InitArgs| !prefix_at(#[trigger] v.packed(), bytes@, *old(pos) as int) by {
                        if prefix_at(v.packed(), bytes@, *old(pos) as int) {
                            lemma_prefix_concat(v.version.packed(), v.core.packed(), bytes@, q0);
                            <u8 as Packed>::lemma_unique(v.version, x0, bytes@, q0);
                        }
                    }
                }
                return Err(e);
            },
        };
        let v = InitArgs { version: x0, core: x1 };
        proof {
            lemma_prefix_concat(v.version.packed(), v.core.packed(), bytes@, q0);
        }
        *pos = p;
        Ok(v)
    }

    fn write(&self, bytes: &mut [u8], pos: &mut usize) -> (r: Result<(), WriteError>) {
        let mut p = *pos;
        let ghost start = *pos as int;
        let ghost buf0 = bytes@;
        match self.version.write(bytes, &mut p) {
            Err(e) => {
                proof {
                    assert(self.packed() =~= self.version.packed() + (self.core.packed()));
                }
                return Err(e);
            },
            Ok(()) => {},
        }
        match self.core.write(bytes, &mut p) {
            Err(e) => {
                proof {
                    assert(self.packed() =~= self.version.packed() + self.core.packed());
                }
                return Err(e);
            },
            Ok(()) => {},
        }
        proof {
            lemma_written_concat(buf0, start, self.version.packed(), self.core.packed());
        }
        proof {
            assert(self.version.packed() + self.core.packed() =~= self.packed());
        }
        *pos = p;
        Ok(())
    }
}

impl Packed for BuyrambsysArgs {
    open spec fn packed(&self) -> Seq<u8> {
        self.payer.packed() + (self.receiver.packed() + self.bytes.packed())
    }

    proof fn lemma_unique(a: Self, b: Self, bytes: Seq<u8>, pos: int) {
        let ghost mut q = pos;
        lemma_prefix_concat(a.payer.packed(), a.receiver.packed() + a.bytes.packed(), bytes, q);
        lemma_prefix_concat(b.payer.packed(), b.receiver.packed() + b.bytes.packed(), bytes, q);
        <Name as Packed>::lemma_unique(a.payer, b.payer, bytes, q);
        q = q + a.payer.packed().len();
        lemma_prefix_concat(a.receiver.packed(), a.bytes.packed(), bytes, q);
        lemma_prefix_concat(b.receiver.packed(), b.bytes.packed(), bytes, q);
        <Name as Packed>::lemma_unique(a.receiver, b.receiver, bytes, q);
        q = q + a.receiver.packed().len();
        <u32 as Packed>::lemma_unique(a.bytes, b.bytes, bytes, q);
    }

    open spec fn same_value(&self, other: &Self) -> bool {
        &&& self.payer.same_value(&other.payer)
        &&& self.receiver.same_value(&other.receiver)
        &&& self.bytes.same_value(&other.bytes)
    }

    proof fn lemma_injective(a: Self, b: Self) {
        let bytes = a.packed();
        let pos: int = 0;
        assert(bytes.subrange(0, bytes.len() as int) =~= bytes);
        let ghost mut q = pos;
        lemma_prefix_concat(a.payer.packed(), a.receiver.packed() + a.bytes.packed(), bytes, q);
        lemma_prefix_concat(b.payer.packed(), b.receiver.packed() + b.bytes.packed(), bytes, q);
        <Name as Packed>::lemma_unique(a.payer, b.payer, bytes, q);
        <Name as Packed>::lemma_injective(a.payer, b.payer);
        q = q + a.payer.packed().len();
        lemma_prefix_concat(a.receiver.packed(), a.bytes.packed(), bytes, q);
        lemma_prefix_concat(b.receiver.packed(), b.bytes.packed(), bytes, q);
        <Name as Packed>::lemma_unique(a.receiver, b.receiver, bytes, q);
        <Name as Packed>::lemma_injective(a.receiver, b.receiver);
        q = q + a.receiver.packed().len();
        <u32 as Packed>::lemma_unique(a.bytes, b.bytes, bytes, q);
        <u32 as Packed>::lemma_injective(a.bytes, b.bytes);
    }

    fn num_bytes(&self) -> (n: usize) {
        self.payer.num_bytes() + self.receiver.num_bytes() + self.bytes.num_bytes()
    }

    fn read(bytes: &[u8], pos: &mut usize) -> (r: Result<Self, ReadError>) {
        let mut p = *pos;
        let ghost q0: int = p as int;
        let x0 = match <Name as Packed>::read(bytes, &mut p) {
            Ok(x) => x,
            Err(e) => {
                proof {
                    assert forall|v: BuyrambsysArgs| !prefix_at(#[trigger] v.packed(), bytes@, *old(pos) as int) by {
                        if prefix_at(v.packed(), bytes@, *old(pos) as int) {
                            lemma_prefix_concat(v.payer.packed(), v.receiver.packed() + v.bytes.packed(), bytes@, q0);
                        }
                    }
                }
                return Err(e);
            },
        };
        let ghost q1: int = p as int;
        let x1 = match <Name as Packed>::read(bytes, &mut p) {
            Ok(x) => x,
            Err(e) => {
                proof {
                    assert forall|v: BuyrambsysArgs| !prefix_at(#[trigger] v.packed(), bytes@, *old(pos) as int) by {
                        if prefix_at(v.packed(), bytes@, *old(pos) as int) {
                            lemma_prefix_concat(v.payer.packed(), v.receiver.packed() + v.bytes.packed(), bytes@, q0);
                            <Name as Packed>::lemma_unique(v.payer, x0, bytes@, q0);
                            lemma_prefix_concat(v.receiver.packed(), v.bytes.packed(), bytes@, q1);
                        }
                    }
                }
                return Err(e);
            },
        };
        let ghost q2: int = p as int;
        let x2 = match <u32 as Packed>::read(bytes, &mut p) {
            Ok(x) => x,
            Err(e) => {
                proof {
                    assert forall|v: BuyrambsysArgs| !prefix_at(#[trigger] v.packed(), bytes@, *old(pos) as int) by {
                        if prefix_at(v.packed(), bytes@, *old(pos) as int) {
                            lemma_prefix_concat(v.payer.packed(), v.receiver.packed() + v.bytes.packed(), bytes@, q0);
                            <Name as Packed>::lemma_unique(v.payer, x0, bytes@, q0);
                            lemma_prefix_concat(v.receiver.packed(), v.bytes.packed(), bytes@, q1);
                            <Name as Packed>::lemma_unique(v.receiver, x1, bytes@, q1);
                        }
                    }
                }
                return Err(e);
            },
        };
        let v = BuyrambsysArgs { payer: x0, receiver: x1, bytes: x2 };
        proof {
            lemma_prefix_concat(v.receiver.packed(), v.bytes.packed(), bytes@, q1);
            lemma_prefix_concat(v.payer.packed(), v.receiver.packed() + v.bytes.packed(), bytes@, q0);
        }
        *pos = p;
        Ok(v)
    }

    fn write(&self, bytes: &mut [u8], pos: &mut usize) -> (r: Result<(), WriteError>) {
        let mut p = *pos;
        let ghost start = *pos as int;
        let ghost buf0 = bytes@;
        match self.payer.write(bytes, &mut p) {
            Err(e) => {
                proof {
                    assert(self.packed() =~= self.payer.packed() + (self.receiver.packed() + self.bytes.packed()));
                }
                return Err(e);
            },
            Ok(()) => {},
        }
        match self.receiver.write(bytes, &mut p) {
            Err(e) => {
                proof {
                    assert(self.packed() =~= self.payer.packed() + self.receiver.packed() + (self.bytes.packed()));
                }
                return Err(e);
            },
            Ok(()) => {},
        }
        proof {
            lemma_written_concat(buf0, start, self.payer.packed(), self.receiver.packed());
        }
        match self.bytes.write(bytes, &mut p) {
            Err(e) => {
                proof {
                    assert(self.packed() =~= self.payer.packed() + self.receiver.packed() + self.bytes.packed());
                }
                return Err(e);
            },
            Ok(()) => {},
        }
        proof {
            lemma_written_concat(buf0, start, self.payer.packed() + self.receiver.packed(), self.bytes.packed());
        }
        proof {
            assert(self.payer.packed() + self.receiver.packed() + self.bytes.packed() =~= self.packed());
        }
        *pos = p;
        Ok(())
    }
}

impl Packed for BuyramsysArgs {
    open spec fn packed(&self) -> Seq<u8> {
        self.payer.packed() + (self.receiver.packed() + self.quant.packed())
    }

    proof fn lemma_unique(a: Self, b: Self, bytes: Seq<u8>, pos: int) {
        let ghost mut q = pos;
        lemma_prefix_concat(a.payer.packed(), a.receiver.packed() + a.quant.packed(), bytes, q);
        lemma_prefix_concat(b.payer.packed(), b.receiver.packed() + b.quant.packed(), bytes, q);
        <Name as Packed>::lemma_unique(a.payer, b.payer, bytes, q);
        q = q + a.payer.packed().len();
        lemma_prefix_concat(a.receiver.packed(), a.quant.packed(), bytes, q);
        lemma_prefix_concat(b.receiver.packed(), b.quant.packed(), bytes, q);
        <Name as Packed>::lemma_unique(a.receiver, b.receiver, bytes, q);
        q = q + a.receiver.packed().len();
        <Asset as Packed>::lemma_unique(a.quant, b.quant, bytes, q);
    }

    open spec fn same_value(&self, other: &Self) -> bool {
        &&& self.payer.same_value(&other.payer)
        &&& self.receiver.same_value(&other.receiver)
        &&& self.quant.same_value(&other.quant)
    }

    proof fn lemma_injective(a: Self, b: Self) {
        let bytes = a.packed();
        let pos: int = 0;
        assert(bytes.subrange(0, bytes.len() as int) =~= bytes);
        let ghost mut q = pos;
        lemma_prefix_concat(a.payer.packed(), a.receiver.packed() + a.quant.packed(), bytes, q);
        lemma_prefix_concat(b.payer.packed(), b.receiver.packed() + b.quant.packed(), bytes, q);
        <Name as Packed>::lemma_unique(a.payer, b.payer, bytes, q);
        <Name as Packed>::lemma_injective(a.payer, b.payer);
        q = q + a.payer.packed().len();
        lemma_prefix_concat(a.receiver.packed(), a.quant.packed(), bytes, q);
        lemma_prefix_concat(b.receiver.packed(), b.quant.packed(), bytes, q);
        <Name as Packed>::lemma_unique(a.receiver, b.receiver, bytes, q);
        <Name as Packed>::lemma_injective(a.receiver, b.receiver);
        q = q + a.receiver.packed().len();
        <Asset as Packed>::lemma_unique(a.quant, b.quant, bytes, q);
        <Asset as Packed>::lemma_injective(a.quant, b.quant);
    }

    fn num_bytes(&self) -> (n: usize) {
        self.payer.num_bytes() + self.receiver.num_bytes() + self.quant.num_bytes()
    }

    fn read(bytes: &[u8], pos: &mut usize) -> (r: Result<Self, ReadError>) {
        let mut p = *pos;
        let ghost q0: int = p as int;
        let x0 = match <Name as Packed>::read(bytes, &mut p) {
            Ok(x) => x,
            Err(e) => {
                proof {
                    assert forall|v: BuyramsysArgs| !prefix_at(#[trigger] v.packed(), bytes@, *old(pos) as int) by {
                        if prefix_at(v.packed(), bytes@, *old(pos) as int) {
                            lemma_prefix_concat(v.payer.packed(), v.receiver.packed() + v.quant.packed(), bytes@, q0);
                        }
                    }
                }
                return Err(e);
            },
        };
        let ghost q1: int = p as int;
        let x1 = match <Name as Packed>::read(bytes, &mut p) {
            Ok(x) => x,
            Err(e) => {
                proof {
                    assert forall|v: BuyramsysArgs| !prefix_at(#[trigger] v.packed(), bytes@, *old(pos) as int) by {
                        if prefix_at(v.packed(), bytes@, *old(pos) as int) {
                            lemma_prefix_concat(v.payer.packed(), v.receiver.packed() + v.quant.packed(), bytes@, q0);
                            <Name as Packed>::lemma_unique(v.payer, x0, bytes@, q0);
                            lemma_prefix_concat(v.receiver.packed(), v.quant.packed(), bytes@, q1);
                        }
                    }
                }
                return Err(e);
            },
        };
        let ghost q2: int = p as int;
        let x2 = match <Asset as Packed>::read(bytes, &mut p) {
            Ok(x) => x,
            Err(e) => {
                proof {
                    assert forall|v: BuyramsysArgs| !prefix_at(#[trigger] v.packed(), bytes@, *old(pos) as int) by {
                        if prefix_at(v.packed(), bytes@, *old(pos) as int) {
                            lemma_prefix_concat(v.payer.packed(), v.receiver.packed() + v.quant.packed(), bytes@, q0);
                            <Name as Packed>::lemma_unique(v.payer, x0, bytes@, q0);
                            lemma_prefix_concat(v.receiver.packed(), v.quant.packed(), bytes@, q1);
                            <Name as Packed>::lemma_unique(v.receiver, x1, bytes@, q1);
                        }
                    }
                }
                return Err(e);
            },
        };
        let v = BuyramsysArgs { payer: x0, receiver: x1, quant: x2 };
        proof {
            lemma_prefix_concat(v.receiver.packed(), v.quant.packed(), bytes@, q1);
            lemma_prefix_concat(v.payer.packed(), v.receiver.packed() + v.quant.packed(), bytes@, q0);
        }
        *pos = p;
        Ok(v)
    }

    fn write(&self, bytes: &mut [u8], pos: &mut usize) -> (r: Result<(), WriteError>) {
        let mut p = *pos;
        let ghost start = *pos as int;
        let ghost buf0 = bytes@;
        match self.payer.write(bytes, &mut p) {
            Err(e) => {
                proof {
                    assert(self.packed() =~= self.payer.packed() + (self.receiver.packed() + self.quant.packed()));
                }
                return Err(e);
            },
            Ok(()) => {},
        }
        match self.receiver.write(bytes, &mut p) {
            Err(e) => {
                proof {
                    assert(self.packed() =~= self.payer.packed() + self.receiver.packed() + (self.quant.packed()));
                }
                return Err(e);
            },
            Ok(()) => {},
        }
        proof {
            lemma_written_concat(buf0, start, self.payer.packed(), self.receiver.packed());
        }
        match self.quant.write(bytes, &mut p) {
            Err(e) => {
                proof {
                    assert(self.packed() =~= self.payer.packed() + self.receiver.packed() + self.quant.packed());
                }
                return Err(e);
            },
            Ok(()) => {},
        }
        proof {
            lemma_written_concat(buf0, start, self.payer.packed() + self.receiver.packed(), self.quant.packed());
        }
        proof {
            assert(self.payer.packed() + self.receiver.packed() + self.quant.packed() =~= self.packed());
        }
        *pos = p;
        Ok(())
    }
}

impl Packed for DelegatebwArgs {
    open spec fn packed(&self) -> Seq<u8> {
        self.from.packed() + (self.receiver.packed() + (self.stake_net_quantity.packed() + (self.stake_cpu_quantity.packed() + self.transfer.packed())))
    }

    proof fn lemma_unique(a: Self, b: Self, bytes: Seq<u8>, pos: int) {
        let ghost mut q = pos;
        lemma_prefix_concat(a.from.packed(), a.receiver.packed() + (a.stake_net_quantity.packed() + (a.stake_cpu_quantity.packed() + a.transfer.packed())), bytes, q);
        lemma_prefix_concat(b.from.packed(), b.receiver.packed() + (b.stake_net_quantity.packed() + (b.stake_cpu_quantity.packed() + b.transfer.packed())), bytes, q);
        <Name as Packed>::lemma_unique(a.from, b.from, bytes, q);
        q = q + a.from.packed().len();
        lemma_prefix_concat(a.receiver.packed(), a.stake_net_quantity.packed() + (a.stake_cpu_quantity.packed() + a.transfer.packed()), bytes, q);
        lemma_prefix_concat(b.receiver.packed(), b.stake_net_quantity.packed() + (b.stake_cpu_quantity.packed() + b.transfer.packed()), bytes, q);
        <Name as Packed>::lemma_unique(a.receiver, b.receiver, bytes, q);
        q = q + a.receiver.packed().len();
        lemma_prefix_concat(a.stake_net_quantity.packed(), a.stake_cpu_quantity.packed() + a.transfer.packed(), bytes, q);
        lemma_prefix_concat(b.stake_net_quantity.packed(), b.stake_cpu_quantity.packed() + b.transfer.packed(), bytes, q);
        <Asset as Packed>::lemma_unique(a.stake_net_quantity, b.stake_net_quantity, bytes, q);
        q = q + a.stake_net_quantity.packed().len();
        lemma_prefix_concat(a.stake_cpu_quantity.packed(), a.transfer.packed(), bytes, q);
        lemma_prefix_concat(b.stake_cpu_quantity.packed(), b.transfer.packed(), bytes, q);
        <Asset as Packed>::lemma_unique(a.stake_cpu_quantity, b.stake_cpu_quantity, bytes, q);
        q = q + a.stake_cpu_quantity.packed().len();
        <bool as Packed>::lemma_unique(a.transfer, b.transfer, bytes, q);
    }

    open spec fn same_value(&self, other: &Self) -> bool {
        &&& self.from.same_value(&other.from)
        &&& self.receiver.same_value(&other.receiver)
        &&& self.stake_net_quantity.same_value(&other.stake_net_quantity)
        &&& self.stake_cpu_quantity.same_value(&other.stake_cpu_quantity)
        &&& self.transfer.same_value(&other.transfer)
    }

    proof fn lemma_injective(a: Self, b: Self) {
        let bytes = a.packed();
        let pos: int = 0;
        assert(bytes.subrange(0, bytes.len() as int) =~= bytes);
        let ghost mut q = pos;
        lemma_prefix_concat(a.from.packed(), a.receiver.packed() + (a.stake_net_quantity.packed() + (a.stake_cpu_quantity.packed() + a.transfer.packed())), bytes, q);
        lemma_prefix_concat(b.from.packed(), b.receiver.packed() + (b.stake_net_quantity.packed() + (b.stake_cpu_quantity.packed() + b.transfer.packed())), bytes, q);
        <Name as Packed>::lemma_unique(a.from, b.from, bytes, q);
        <Name as Packed>::lemma_injective(a.from, b.from);
        q = q + a.from.packed().len();
        lemma_prefix_concat(a.receiver.packed(), a.stake_net_quantity.packed() + (a.stake_cpu_quantity.packed() + a.transfer.packed()), bytes, q);
        lemma_prefix_concat(b.receiver.packed(), b.stake_net_quantity.packed() + (b.stake_cpu_quantity.packed() + b.transfer.packed()), bytes, q);
        <Name as Packed>::lemma_unique(a.receiver, b.receiver, bytes, q);
        <Name as Packed>::lemma_injective(a.receiver, b.receiver);
        q = q + a.receiver.packed().len();
        lemma_prefix_concat(a.stake_net_quantity.packed(), a.stake_cpu_quantity.packed() + a.transfer.packed(), bytes, q);
        lemma_prefix_concat(b.stake_net_quantity.packed(), b.stake_cpu_quantity.packed() + b.transfer.packed(), bytes, q);
        <Asset as Packed>::lemma_unique(a.stake_net_quantity, b.stake_net_quantity, bytes, q);
        <Asset as Packed>::lemma_injective(a.stake_net_quantity, b.stake_net_quantity);
        q = q + a.stake_net_quantity.packed().len();
        lemma_prefix_concat(a.stake_cpu_quantity.packed(), a.transfer.packed(), bytes, q);
        lemma_prefix_concat(b.stake_cpu_quantity.packed(), b.transfer.packed(), bytes, q);
        <Asset as Packed>::lemma_unique(a.stake_cpu_quantity, b.stake_cpu_quantity, bytes, q);
        <Asset as Packed>::lemma_injective(a.stake_cpu_quantity, b.stake_cpu_quantity);
        q = q + a.stake_cpu_quantity.packed().len();
        <bool as Packed>::lemma_unique(a.transfer, b.transfer, bytes, q);
        <bool as Packed>::lemma_injective(a.transfer, b.transfer);
    }

    fn num_bytes(&self) -> (n: usize) {
        self.from.num_bytes() + self.receiver.num_bytes() + self.stake_net_quantity.num_bytes() + self.stake_cpu_quantity.num_bytes() + self.transfer.num_bytes()
    }

    fn read(bytes: &[u8], pos: &mut usize) -> (r: Result<Self, ReadError>) {
        let mut p = *pos;
        let ghost q0: int = p as int;
        let x0 = match <Name as Packed>::read(bytes, &mut p) {
            Ok(x) => x,
            Err(e) => {
                proof {
                    assert forall|v: DelegatebwArgs| !prefix_at(#[trigger] v.packed(), bytes@, *old(pos) as int) by {
                        if prefix_at(v.packed(), bytes@, *old(pos) as int) {
                            lemma_prefix_concat(v.from.packed(), v.receiver.packed() + (v.stake_net_quantity.packed() + (v.stake_cpu_quantity.packed() + v.transfer.packed())), bytes@, q0);
                        }
                    }
                }
                return Err(e);
            },
        };
        let ghost q1: int = p as int;
        let x1 = match <Name as Packed>::read(bytes, &mut p) {
            Ok(x) => x,
            Err(e) => {
                proof {
                    assert forall|v: DelegatebwArgs| !prefix_at(#[trigger] v.packed(), bytes@, *old(pos) as int) by {
                        if prefix_at(v.packed(), bytes@, *old(pos) as int) {
                            lemma_prefix_concat(v.from.packed(), v.receiver.packed() + (v.stake_net_quantity.packed() + (v.stake_cpu_quantity.packed() + v.transfer.packed())), bytes@, q0);
                            <Name as Packed>::lemma_unique(v.from, x0, bytes@, q0);
                            lemma_prefix_concat(v.receiver.packed(), v.stake_net_quantity.packed() + (v.stake_cpu_quantity.packed() + v.transfer.packed()), bytes@, q1);
                        }
                    }
                }
                return Err(e);
            },
        };
        let ghost q2: int = p as int;
        let x2 = match <Asset as Packed>::read(bytes, &mut p) {
            Ok(x) => x,
            Err(e) => {
                proof {
                    assert forall|v: DelegatebwArgs| !prefix_at(#[trigger] v.packed(), bytes@, *old(pos) as int) by {
                        if prefix_at(v.packed(), bytes@, *old(pos) as int) {
                            lemma_prefix_concat(v.from.packed(), v.receiver.packed() + (v.stake_net_quantity.packed() + (v.stake_cpu_quantity.packed() + v.transfer.packed())), bytes@, q0);
                            <Name as Packed>::lemma_unique(v.from, x0, bytes@, q0);
                            lemma_prefix_concat(v.receiver.packed(), v.stake_net_quantity.packed() + (v.stake_cpu_quantity.packed() + v.transfer.packed()), bytes@, q1);
                            <Name as Packed>::lemma_unique(v.receiver, x1, bytes@, q1);
                            lemma_prefix_concat(v.stake_net_quantity.packed(), v.stake_cpu_quantity.packed() + v.transfer.packed(), bytes@, q2);
                        }
                    }
                }
                return Err(e);
            },
        };
        let ghost q3: int = p as int;
        let x3 = match <Asset as Packed>::read(bytes, &mut p) {
            Ok(x) => x,
            Err(e) => {
                proof {
                    assert forall|v: DelegatebwArgs| !prefix_at(#[trigger] v.packed(), bytes@, *old(pos) as int) by {
                        if prefix_at(v.packed(), bytes@, *old(pos) as int) {
                            lemma_prefix_concat(v.from.packed(), v.receiver.packed() + (v.stake_net_quantity.packed() + (v.stake_cpu_quantity.packed() + v.transfer.packed())), bytes@, q0);
                            <Name as Packed>::lemma_unique(v.from, x0, bytes@, q0);
                            lemma_prefix_concat(v.receiver.packed(), v.stake_net_quantity.packed() + (v.stake_cpu_quantity.packed() + v.transfer.packed()), bytes@, q1);
                            <Name as Packed>::lemma_unique(v.receiver, x1, bytes@, q1);
                            lemma_prefix_concat(v.stake_net_quantity.packed(), v.stake_cpu_quantity.packed() + v.transfer.packed(), bytes@, q2);
                            <Asset as Packed>::lemma_unique(v.stake_net_quantity, x2, bytes@, q2);
                            lemma_prefix_concat(v.stake_cpu_quantity.packed(), v.transfer.packed(), bytes@, q3);
                        }
                    }
                }
                return Err(e);
            },
        };
        let ghost q4: int = p as int;
        let x4 = match <bool as Packed>::read(bytes, &mut p) {
            Ok(x) => x,
            Err(e) => {
                proof {
                    assert forall|v: DelegatebwArgs| !prefix_at(#[trigger] v.packed(), bytes@, *old(pos) as int) by {
                        if prefix_at(v.packed(), bytes@, *old(pos) as int) {
                            lemma_prefix_concat(v.from.packed(), v.receiver.packed() + (v.stake_net_quantity.packed() + (v.stake_cpu_quantity.packed() + v.transfer.packed())), bytes@, q0);
                            <Name as Packed>::lemma_unique(v.from, x0, bytes@, q0);
                            lemma_prefix_concat(v.receiver.packed(), v.stake_net_quantity.packed() + (v.stake_cpu_quantity.packed() + v.transfer.packed()), bytes@, q1);
                            <Name as Packed>::lemma_unique(v.receiver, x1, bytes@, q1);
                            lemma_prefix_concat(v.stake_net_quantity.packed(), v.stake_cpu_quantity.packed() + v.transfer.packed(), bytes@, q2);
                            <Asset as Packed>::lemma_unique(v.stake_net_quantity, x2, bytes@, q2);
                            lemma_prefix_concat(v.stake_cpu_quantity.packed(), v.transfer.packed(), bytes@, q3);
                            <Asset as Packed>::lemma_unique(v.stake_cpu_quantity, x3, bytes@, q3);
                        }
                    }
                }
                return Err(e);
            },
        };
        let v = DelegatebwArgs { from: x0, receiver: x1, stake_net_quantity: x2, stake_cpu_quantity: x3, transfer: x4 };
        proof {
            lemma_prefix_concat(v.stake_cpu_quantity.packed(), v.transfer.packed(), bytes@, q3);
            lemma_prefix_concat(v.stake_net_quantity.packed(), v.stake_cpu_quantity.packed() + v.transfer.packed(), bytes@, q2);
            lemma_prefix_concat(v.receiver.packed(), v.stake_net_quantity.packed() + (v.stake_cpu_quantity.packed() + v.transfer.packed()), bytes@, q1);
            lemma_prefix_concat(v.from.packed(), v.receiver.packed() + (v.stake_net_quantity.packed() + (v.stake_cpu_quantity.packed() + v.transfer.packed())), bytes@, q0);
        }
        *pos = p;
        Ok(v)
    }

    fn write(&self, bytes: &mut [u8], pos: &mut usize) -> (r: Result<(), WriteError>) {
        let mut p = *pos;
        let ghost start = *pos as int;
        let ghost buf0 = bytes@;
        match self.from.write(bytes, &mut p) {
            Err(e) => {
                proof {
                    assert(self.packed() =~= self.from.packed() + (self.receiver.packed() + (self.stake_net_quantity.packed() + (self.stake_cpu_quantity.packed() + self.transfer.packed()))));
                }
                return Err(e);
            },
            Ok(()) => {},
        }
        match self.receiver.write(bytes, &mut p) {
            Err(e) => {
                proof {
                    assert(self.packed() =~= self.from.packed() + self.receiver.packed() + (self.stake_net_quantity.packed() + (self.stake_cpu_quantity.packed() + self.transfer.packed())));
                }
                return Err(e);
            },
            Ok(()) => {},
        }
        proof {
            lemma_written_concat(buf0, start, self.from.packed(), self.receiver.packed());
        }
        match self.stake_net_quantity.write(bytes, &mut p) {
            Err(e) => {
                proof {
                    assert(self.packed() =~= self.from.packed() + self.receiver.packed() + self.stake_net_quantity.packed() + (self.stake_cpu_quantity.packed() + self.transfer.packed()));
                }
                return Err(e);
            },
            Ok(()) => {},
        }
        proof {
            lemma_written_concat(buf0, start, self.from.packed() + self.receiver.packed(), self.stake_net_quantity.packed());
        }
        match self.stake_cpu_quantity.write(bytes, &mut p) {
            Err(e) => {
                proof {
                    assert(self.packed() =~= self.from.packed() + self.receiver.packed() + self.stake_net_quantity.packed() + self.stake_cpu_quantity.packed() + (self.transfer.packed()));
                }
                return Err(e);
            },
            Ok(()) => {},
        }
        proof {
            lemma_written_concat(buf0, start, self.from.packed() + self.receiver.packed() + self.stake_net_quantity.packed(), self.stake_cpu_quantity.packed());
        }
        match self.transfer.write(bytes, &mut p) {
            Err(e) => {
                proof {
                    assert(self.packed() =~= self.from.packed() + self.receiver.packed() + self.stake_net_quantity.packed() + self.stake_cpu_quantity.packed() + self.transfer.packed());
                }
                return Err(e);
            },
            Ok(()) => {},
        }
        proof {
            lemma_written_concat(buf0, start, self.from.packed() + self.receiver.packed() + self.stake_net_quantity.packed() + self.stake_cpu_quantity.packed(), self.transfer.packed());
        }
        proof {
            assert(self.from.packed() + self.receiver.packed() + self.stake_net_quantity.packed() + self.stake_cpu_quantity.packed() + self.transfer.packed() =~= self.packed());
        }
        *pos = p;
        Ok(())
    }
}

impl Packed for UndelegatebwArgs {
    open spec fn packed(&self) -> Seq<u8> {
        self.from.packed() + (self.receiver.packed() + (self.unstake_net_quantity.packed() + self.unstake_cpu_quantity.packed()))
    }

    proof fn lemma_unique(a: Self, b: Self, bytes: Seq<u8>, pos: int) {
        let ghost mut q = pos;
        lemma_prefix_concat(a.from.packed(), a.receiver.packed() + (a.unstake_net_quantity.packed() + a.unstake_cpu_quantity.packed()), bytes, q);
        lemma_prefix_concat(b.from.packed(), b.receiver.packed() + (b.unstake_net_quantity.packed() + b.unstake_cpu_quantity.packed()), bytes, q);
        <Name as Packed>::lemma_unique(a.from, b.from, bytes, q);
        q = q + a.from.packed().len();
        lemma_prefix_concat(a.receiver.packed(), a.unstake_net_quantity.packed() + a.unstake_cpu_quantity.packed(), bytes, q);
        lemma_prefix_concat(b.receiver.packed(), b.unstake_net_quantity.packed() + b.unstake_cpu_quantity.packed(), bytes, q);
        <Name as Packed>::lemma_unique(a.receiver, b.receiver, bytes, q);
        q = q + a.receiver.packed().len();
        lemma_prefix_concat(a.unstake_net_quantity.packed(), a.unstake_cpu_quantity.packed(), bytes, q);
        lemma_prefix_concat(b.unstake_net_quantity.packed(), b.unstake_cpu_quantity.packed(), bytes, q);
        <Asset as Packed>::lemma_unique(a.unstake_net_quantity, b.unstake_net_quantity, bytes, q);
        q = q + a.unstake_net_quantity.packed().len();
        <Asset as Packed>::lemma_unique(a.unstake_cpu_quantity, b.unstake_cpu_quantity, bytes, q);
    }

    open spec fn same_value(&self, other: &Self) -> bool {
        &&& self.from.same_value(&other.from)
        &&& self.receiver.same_value(&other.receiver)
        &&& self.unstake_net_quantity.same_value(&other.unstake_net_quantity)
        &&& self.unstake_cpu_quantity.same_value(&other.unstake_cpu_quantity)
    }

    proof fn lemma_injective(a: Self, b: Self) {
        let bytes = a.packed();
        let pos: int = 0;
        assert(bytes.subrange(0, bytes.len() as int) =~= bytes);
        let ghost mut q = pos;
        lemma_prefix_concat(a.from.packed(), a.receiver.packed() + (a.unstake_net_quantity.packed() + a.unstake_cpu_quantity.packed()), bytes, q);
        lemma_prefix_concat(b.from.packed(), b.receiver.packed() + (b.unstake_net_quantity.packed() + b.unstake_cpu_quantity.packed()), bytes, q);
        <Name as Packed>::lemma_unique(a.from, b.from, bytes, q);
        <Name as Packed>::lemma_injective(a.from, b.from);
        q = q + a.from.packed().len();
        lemma_prefix_concat(a.receiver.packed(), a.unstake_net_quantity.packed() + a.unstake_cpu_quantity.packed(), bytes, q);
        lemma_prefix_concat(b.receiver.packed(), b.unstake_net_quantity.packed() + b.unstake_cpu_quantity.packed(), bytes, q);
        <Name as Packed>::lemma_unique(a.receiver, b.receiver, bytes, q);
        <Name as Packed>::lemma_injective(a.receiver, b.receiver);
        q = q + a.receiver.packed().len();
        lemma_prefix_concat(a.unstake_net_quantity.packed(), a.unstake_cpu_quantity.packed(), bytes, q);
        lemma_prefix_concat(b.unstake_net_quantity.packed(), b.unstake_cpu_quantity.packed(), bytes, q);
        <Asset as Packed>::lemma_unique(a.unstake_net_quantity, b.unstake_net_quantity, bytes, q);
        <Asset as Packed>::lemma_injective(a.unstake_net_quantity, b.unstake_net_quantity);
        q = q + a.unstake_net_quantity.packed().len();
        <Asset as Packed>::lemma_unique(a.unstake_cpu_quantity, b.unstake_cpu_quantity, bytes, q);
        <Asset as Packed>::lemma_injective(a.unstake_cpu_quantity, b.unstake_cpu_quantity);
    }

    fn num_bytes(&self) -> (n: usize) {
        self.from.num_bytes() + self.receiver.num_bytes() + self.unstake_net_quantity.num_bytes() + self.unstake_cpu_quantity.num_bytes()
    }

    fn read(bytes: &[u8], pos: &mut usize) -> (r: Result<Self, ReadError>) {
        let mut p = *pos;
        let ghost q0: int = p as int;
        let x0 = match <Name as Packed>::read(bytes, &mut p) {
            Ok(x) => x,
            Err(e) => {
                proof {
                    assert forall|v: UndelegatebwArgs| !prefix_at(#[trigger] v.packed(), bytes@, *old(pos) as int) by {
                        if prefix_at(v.packed(), bytes@, *old(pos) as int) {
                            lemma_prefix_concat(v.from.packed(), v.receiver.packed() + (v.unstake_net_quantity.packed() + v.unstake_cpu_quantity.packed()), bytes@, q0);
                        }
                    }
                }
                return Err(e);
            },
        };
        let ghost q1: int = p as int;
        let x1 = match <Name as Packed>::read(bytes, &mut p) {
            Ok(x) => x,
            Err(e) => {
                proof {
                    assert forall|v: UndelegatebwArgs| !prefix_at(#[trigger] v.packed(), bytes@, *old(pos) as int) by {
                        if prefix_at(v.packed(), bytes@, *old(pos) as int) {
                            lemma_prefix_concat(v.from.packed(), v.receiver.packed() + (v.unstake_net_quantity.packed() + v.unstake_cpu_quantity.packed()), bytes@, q0);
                            <Name as Packed>::lemma_unique(v.from, x0, bytes@, q0);
                            lemma_prefix_concat(v.receiver.packed(), v.unstake_net_quantity.packed() + v.unstake_cpu_quantity.packed(), bytes@, q1);
                        }
                    }
                }
                return Err(e);
            },
        };
        let ghost q2: int = p as int;
        let x2 = match <Asset as Packed>::read(bytes, &mut p) {
            Ok(x) => x,
            Err(e) => {
                proof {
                    assert forall|v: UndelegatebwArgs| !prefix_at(#[trigger] v.packed(), bytes@, *old(pos) as int) by {
                        if prefix_at(v.packed(), bytes@, *old(pos) as int) {
                            lemma_prefix_concat(v.from.packed(), v.receiver.packed() + (v.unstake_net_quantity.packed() + v.unstake_cpu_quantity.packed()), bytes@, q0);
                            <Name as Packed>::lemma_unique(v.from, x0, bytes@, q0);
                            lemma_prefix_concat(v.receiver.packed(), v.unstake_net_quantity.packed() + v.unstake_cpu_quantity.packed(), bytes@, q1);
                            <Name as Packed>::lemma_unique(v.receiver, x1, bytes@, q1);
                            lemma_prefix_concat(v.unstake_net_quantity.packed(), v.unstake_cpu_quantity.packed(), bytes@, q2);
                        }
                    }
                }
                return Err(e);
            },
        };
        let ghost q3: int = p as int;
        let x3 = match <Asset as Packed>::read(bytes, &mut p) {
            Ok(x) => x,
            Err(e) => {
                proof {
                    assert forall|v: UndelegatebwArgs| !prefix_at(#[trigger] v.packed(), bytes@, *old(pos) as int) by {
                        if prefix_at(v.packed(), bytes@, *old(pos) as int) {
                            lemma_prefix_concat(v.from.packed(), v.receiver.packed() + (v.unstake_net_quantity.packed() + v.unstake_cpu_quantity.packed()), bytes@, q0);
                            <Name as Packed>::lemma_unique(v.from, x0, bytes@, q0);
                            lemma_prefix_concat(v.receiver.packed(), v.unstake_net_quantity.packed() + v.unstake_cpu_quantity.packed(), bytes@, q1);
                            <Name as Packed>::lemma_unique(v.receiver, x1, bytes@, q1);
                            lemma_prefix_concat(v.unstake_net_quantity.packed(), v.unstake_cpu_quantity.packed(), bytes@, q2);
                            <Asset as Packed>::lemma_unique(v.unstake_net_quantity, x2, bytes@, q2);
                        }
                    }
                }
                return Err(e);
            },
        };
        let v = UndelegatebwArgs { from: x0, receiver: x1, unstake_net_quantity: x2, unstake_cpu_quantity: x3 };
        proof {
            lemma_prefix_concat(v.unstake_net_quantity.packed(), v.unstake_cpu_quantity.packed(), bytes@, q2);
            lemma_prefix_concat(v.receiver.packed(), v.unstake_net_quantity.packed() + v.unstake_cpu_quantity.packed(), bytes@, q1);
            lemma_prefix_concat(v.from.packed(), v.receiver.packed() + (v.unstake_net_quantity.packed() + v.unstake_cpu_quantity.packed()), bytes@, q0);
        }
        *pos = p;
        Ok(v)
    }

    fn write(&self, bytes: &mut [u8], pos: &mut usize) -> (r: Result<(), WriteError>) {
        let mut p = *pos;
        let ghost start = *pos as int;
        let ghost buf0 = bytes@;
        match self.from.write(bytes, &mut p) {
            Err(e) => {
                proof {
                    assert(self.packed() =~= self.from.packed() + (self.receiver.packed() + (self.unstake_net_quantity.packed() + self.unstake_cpu_quantity.packed())));
                }
                return Err(e);
            },
            Ok(()) => {},
        }
        match self.receiver.write(bytes, &mut p) {
            Err(e) => {
                proof {
                    assert(self.packed() =~= self.from.packed() + self.receiver.packed() + (self.unstake_net_quantity.packed() + self.unstake_cpu_quantity.packed()));
                }
                return Err(e);
            },
            Ok(()) => {},
        }
        proof {
            lemma_written_concat(buf0, start, self.from.packed(), self.receiver.packed());
        }
        match self.unstake_net_quantity.write(bytes, &mut p) {
            Err(e) => {
                proof {
                    assert(self.packed() =~= self.from.packed() + self.receiver.packed() + self.unstake_net_quantity.packed() + (self.unstake_cpu_quantity.packed()));
                }
                return Err(e);
            },
            Ok(()) => {},
        }
        proof {
            lemma_written_concat(buf0, start, self.from.packed() + self.receiver.packed(), self.unstake_net_quantity.packed());
        }
        match self.unstake_cpu_quantity.write(bytes, &mut p) {
            Err(e) => {
                proof {
                    assert(self.packed() =~= self.from.packed() + self.receiver.packed() + self.unstake_net_quantity.packed() + self.unstake_cpu_quantity.packed());
                }
                return Err(e);
            },
            Ok(()) => {},
        }
        proof {
            lemma_written_concat(buf0, start, self.from.packed() + self.receiver.packed() + self.unstake_net_quantity.packed(), self.unstake_cpu_quantity.packed());
        }
        proof {
            assert(self.from.packed() + self.receiver.packed() + self.unstake_net_quantity.packed() + self.unstake_cpu_quantity.packed() =~= self.packed());
        }
        *pos = p;
        Ok(())
    }
}

impl Packed for RefundArgs {
    open spec fn packed(&self) -> Seq<u8> {
        self.owner.packed()
    }

    proof fn lemma_unique(a: Self, b: Self, bytes: Seq<u8>, pos: int) {
        let ghost mut q = pos;
        <Name as Packed>::lemma_unique(a.owner, b.owner, bytes, q);
    }

    open spec fn same_value(&self, other: &Self) -> bool {
        &&& self.owner.same_value(&other.owner)
    }

    proof fn lemma_injective(a: Self, b: Self) {
        let bytes = a.packed();
        let pos: int = 0;
        assert(bytes.subrange(0, bytes.len() as int) =~= bytes);
        let ghost mut q = pos;
        <Name as Packed>::lemma_unique(a.owner, b.owner, bytes, q);
        <Name as Packed>::lemma_injective(a.owner, b.owner);
    }

    fn num_bytes(&self) -> (n: usize) {
        self.owner.num_bytes()
    }

    fn read(bytes: &[u8], pos: &mut usize) -> (r: Result<Self, ReadError>) {
        let mut p = *pos;
        let ghost q0: int = p as int;
        let x0 = match <Name as Packed>::read(bytes, &mut p) {
            Ok(x) => x,
            Err(e) => {
                proof {
                    assert forall|v: RefundArgs| !prefix_at(#[trigger] v.packed(), bytes@, *old(pos) as int) by {
                        if prefix_at(v.packed(), bytes@, *old(pos) as int) {
                        }
                    }
                }
                return Err(e);
            },
        };
        let v = RefundArgs { owner: x0 };
        proof {
        }
        *pos = p;
        Ok(v)
    }

    fn write(&self, bytes: &mut [u8], pos: &mut usize) -> (r: Result<(), WriteError>) {
        let mut p = *pos;
        let ghost start = *pos as int;
        let ghost buf0 = bytes@;
        match self.owner.write(bytes, &mut p) {
            Err(e) => {
                return Err(e);
            },
            Ok(()) => {},
        }
        *pos = p;
        Ok(())
    }
}

impl Packed for OnblockArgs {
    open spec fn packed(&self) -> Seq<u8> {
        self.header.packed()
    }

    proof fn lemma_unique(a: Self, b: Self, bytes: Seq<u8>, pos: int) {
        let ghost mut q = pos;
        <BlockHeader as Packed>::lemma_unique(a.header, b.header, bytes, q);
    }

    open spec fn same_value(&self, other: &Self) -> bool {
        &&& self.header.same_value(&other.header)
    }

    proof fn lemma_injective(a: Self, b: Self) {
        let bytes = a.packed();
        let pos: int = 0;
        assert(bytes.subrange(0, bytes.len() as int) =~= bytes);
        let ghost mut q = pos;
        <BlockHeader as Packed>::lemma_unique(a.header, b.header, bytes, q);
        <BlockHeader as Packed>::lemma_injective(a.header, b.header);
    }

    fn num_bytes(&self) -> (n: usize) {
        self.header.num_bytes()
    }

    fn read(bytes: &[u8], pos: &mut usize) -> (r: Result<Self, ReadError>) {
        let mut p = *pos;
        let ghost q0: int = p as int;
        let x0 = match <BlockHeader as Packed>::read(bytes, &mut p) {
            Ok(x) => x,
            Err(e) => {
                proof {
                    assert forall|v: OnblockArgs| !prefix_at(#[trigger] v.packed(), bytes@, *old(pos) as int) by {
                        if prefix_at(v.packed(), bytes@, *old(pos) as int) {
                        }
                    }
                }
                return Err(e);
            },
        };
        let v = OnblockArgs { header: x0 };
        proof {
        }
        *pos = p;
        Ok(v)
    }

    fn write(&self, bytes: &mut [u8], pos: &mut usize) -> (r: Result<(), WriteError>) {
        let mut p = *pos;
        let ghost start = *pos as int;
        let ghost buf0 = bytes@;
        match self.header.write(bytes, &mut p) {
            Err(e) => {
                return Err(e);
            },
            Ok(()) => {},
        }
        *pos = p;
        Ok(())
    }
}

impl Packed for RegproducerArgs {
    open spec fn packed(&self) -> Seq<u8> {
        self.producer.packed() + (self.producer_key.packed() + (self.url.packed() + self.location.packed()))
    }

    proof fn lemma_unique(a: Self, b: Self, bytes: Seq<u8>, pos: int) {
        let ghost mut q = pos;
        lemma_prefix_concat(a.producer.packed(), a.producer_key.packed() + (a.url.packed() + a.location.packed()), bytes, q);
        lemma_prefix_concat(b.producer.packed(), b.producer_key.packed() + (b.url.packed() + b.location.packed()), bytes, q);
        <Name as Packed>::lemma_unique(a.producer, b.producer, bytes, q);
        q = q + a.producer.packed().len();
        lemma_prefix_concat(a.producer_key.packed(), a.url.packed() + a.location.packed(), bytes, q);
        lemma_prefix_concat(b.producer_key.packed(), b.url.packed() + b.location.packed(), bytes, q);
        <PublicKey as Packed>::lemma_unique(a.producer_key, b.producer_key, bytes, q);
        q = q + a.producer_key.packed().len();
        lemma_prefix_concat(a.url.packed(), a.location.packed(), bytes, q);
        lemma_prefix_concat(b.url.packed(), b.location.packed(), bytes, q);
        <Vec<u8> as Packed>::lemma_unique(a.url, b.url, bytes, q);
        q = q + a.url.packed().len();
        <u16 as Packed>::lemma_unique(a.location, b.location, bytes, q);
    }

    open spec fn same_value(&self, other: &Self) -> bool {
        &&& self.producer.same_value(&other.producer)
        &&& self.producer_key.same_value(&other.producer_key)
        &&& self.url.same_value(&other.url)
        &&& self.location.same_value(&other.location)
    }

    proof fn lemma_injective(a: Self, b: Self) {
        let bytes = a.packed();
        let pos: int = 0;
        assert(bytes.subrange(0, bytes.len() as int) =~= bytes);
        let ghost mut q = pos;
        lemma_prefix_concat(a.producer.packed(), a.producer_key.packed() + (a.url.packed() + a.location.packed()), bytes, q);
        lemma_prefix_concat(b.producer.packed(), b.producer_key.packed() + (b.url.packed() + b.location.packed()), bytes, q);
        <Name as Packed>::lemma_unique(a.producer, b.producer, bytes, q);
        <Name as Packed>::lemma_injective(a.producer, b.producer);
        q = q + a.producer.packed().len();
        lemma_prefix_concat(a.producer_key.packed(), a.url.packed() + a.location.packed(), bytes, q);
        lemma_prefix_concat(b.producer_key.packed(), b.url.packed() + b.location.packed(), bytes, q);
        <PublicKey as Packed>::lemma_unique(a.producer_key, b.producer_key, bytes, q);
        <PublicKey as Packed>::lemma_injective(a.producer_key, b.producer_key);
        q = q + a.producer_key.packed().len();
        lemma_prefix_concat(a.url.packed(), a.location.packed(), bytes, q);
        lemma_prefix_concat(b.url.packed(), b.location.packed(), bytes, q);
        <Vec<u8> as Packed>::lemma_unique(a.url, b.url, bytes, q);
        <Vec<u8> as Packed>::lemma_injective(a.url, b.url);
        q = q + a.url.packed().len();
        <u16 as Packed>::lemma_unique(a.location, b.location, bytes, q);
        <u16 as Packed>::lemma_injective(a.location, b.location);
    }

    fn num_bytes(&self) -> (n: usize) {
        self.producer.num_bytes() + self.producer_key.num_bytes() + self.url.num_bytes() + self.location.num_bytes()
    }

    fn read(bytes: &[u8], pos: &mut usize) -> (r: Result<Self, ReadError>) {
        let mut p = *pos;
        let ghost q0: int = p as int;
        let x0 = match <Name as Packed>::read(bytes, &mut p) {
            Ok(x) => x,
            Err(e) => {
                proof {
                    assert forall|v: RegproducerArgs| !prefix_at(#[trigger] v.packed(), bytes@, *old(pos) as int) by {
                        if prefix_at(v.packed(), bytes@, *old(pos) as int) {
                            lemma_prefix_concat(v.producer.packed(), v.producer_key.packed() + (v.url.packed() + v.location.packed()), bytes@, q0);
                        }
                    }
                }
                return Err(e);
            },
        };
        let ghost q1: int = p as int;
        let x1 = match <PublicKey as Packed>::read(bytes, &mut p) {
            Ok(x) => x,
            Err(e) => {
                proof {
                    assert forall|v: RegproducerArgs| !prefix_at(#[trigger] v.packed(), bytes@, *old(pos) as int) by {
                        if prefix_at(v.packed(), bytes@, *old(pos) as int) {
                            lemma_prefix_concat(v.producer.packed(), v.producer_key.packed() + (v.url.packed() + v.location.packed()), bytes@, q0);
                            <Name as Packed>::lemma_unique(v.producer, x0, bytes@, q0);
                            lemma_prefix_concat(v.producer_key.packed(), v.url.packed() + v.location.packed(), bytes@, q1);
                        }
                    }
                }
                return Err(e);
            },
        };
        let ghost q2: int = p as int;
        let x2 = match <Vec<u8> as Packed>::read(bytes, &mut p) {
            Ok(x) => x,
            Err(e) => {
                proof {
                    assert forall|v: RegproducerArgs| !prefix_at(#[trigger] v.packed(), bytes@, *old(pos) as int) by {
                        if prefix_at(v.packed(), bytes@, *old(pos) as int) {
                            lemma_prefix_concat(v.producer.packed(), v.producer_key.packed() + (v.url.packed() + v.location.packed()), bytes@, q0);
                            <Name as Packed>::lemma_unique(v.producer, x0, bytes@, q0);
                            lemma_prefix_concat(v.producer_key.packed(), v.url.packed() + v.location.packed(), bytes@, q1);
                            <PublicKey as Packed>::lemma_unique(v.producer_key, x1, bytes@, q1);
                            lemma_prefix_concat(v.url.packed(), v.location.packed(), bytes@, q2);
                        }
                    }
                }
                return Err(e);
            },
        };
        let ghost q3: int = p as int;
        let x3 = match <u16 as Packed>::read(bytes, &mut p) {
            Ok(x) => x,
            Err(e) => {
                proof {
                    assert forall|v: RegproducerArgs| !prefix_at(#[trigger] v.packed(), bytes@, *old(pos) as int) by {
                        if prefix_at(v.packed(), bytes@, *old(pos) as int) {
                            lemma_prefix_concat(v.producer.packed(), v.producer_key.packed() + (v.url.packed() + v.location.packed()), bytes@, q0);
                            <Name as Packed>::lemma_unique(v.producer, x0, bytes@, q0);
                            lemma_prefix_concat(v.producer_key.packed(), v.url.packed() + v.location.packed(), bytes@, q1);
                            <PublicKey as Packed>::lemma_unique(v.producer_key, x1, bytes@, q1);
                            lemma_prefix_concat(v.url.packed(), v.location.packed(), bytes@, q2);
                            <Vec<u8> as Packed>::lemma_unique(v.url, x2, bytes@, q2);
                        }
                    }
                }
                return Err(e);
            },
        };
        let v = RegproducerArgs { producer: x0, producer_key: x1, url: x2, location: x3 };
        proof {
            lemma_prefix_concat(v.url.packed(), v.location.packed(), bytes@, q2);
            lemma_prefix_concat(v.producer_key.packed(), v.url.packed() + v.location.packed(), bytes@, q1);
            lemma_prefix_concat(v.producer.packed(), v.producer_key.packed() + (v.url.packed() + v.location.packed()), bytes@, q0);
        }
        *pos = p;
        Ok(v)
    }

    fn write(&self, bytes: &mut [u8], pos: &mut usize) -> (r: Result<(), WriteError>) {
        let mut p = *pos;
        let ghost start = *pos as int;
        let ghost buf0 = bytes@;
        match self.producer.write(bytes, &mut p) {
            Err(e) => {
                proof {
                    assert(self.packed() =~= self.producer.packed() + (self.producer_key.packed() + (self.url.packed() + self.location.packed())));
                }
                return Err(e);
            },
            Ok(()) => {},
        }
        match self.producer_key.write(bytes, &mut p) {
            Err(e) => {
                proof {
                    assert(self.packed() =~= self.producer.packed() + self.producer_key.packed() + (self.url.packed() + self.location.packed()));
                }
                return Err(e);
            },
            Ok(()) => {},
        }
        proof {
            lemma_written_concat(buf0, start, self.producer.packed(), self.producer_key.packed());
        }
        match self.url.write(bytes, &mut p) {
            Err(e) => {
                proof {
                    assert(self.packed() =~= self.producer.packed() + self.producer_key.packed() + self.url.packed() + (self.location.packed()));
                }
                return Err(e);
            },
            Ok(()) => {},
        }
        proof {
            lemma_written_concat(buf0, start, self.producer.packed() + self.producer_key.packed(), self.url.packed());
        }
        match self.location.write(bytes, &mut p) {
            Err(e) => {
                proof {
                    assert(self.packed() =~= self.producer.packed() + self.producer_key.packed() + self.url.packed() + self.location.packed());
                }
                return Err(e);
            },
            Ok(()) => {},
        }
        proof {
            lemma_written_concat(buf0, start, self.producer.packed() + self.producer_key.packed() + self.url.packed(), self.location.packed());
        }
        proof {
            assert(self.producer.packed() + self.producer_key.packed() + self.url.packed() + self.location.packed() =~= self.packed());
        }
        *pos = p;
        Ok(())
    }
}

impl Packed for Regproducer2Args {
    open spec fn packed(&self) -> Seq<u8> {
        self.producer.packed() + (self.producer_authority.packed() + (self.url.packed() + self.location.packed()))
    }

    proof fn lemma_unique(a: Self, b: Self, bytes: Seq<u8>, pos: int) {
        let ghost mut q = pos;
        lemma_prefix_concat(a.producer.packed(), a.producer_authority.packed() + (a.url.packed() + a.location.packed()), bytes, q);
        lemma_prefix_concat(b.producer.packed(), b.producer_authority.packed() + (b.url.packed() + b.location.packed()), bytes, q);
        <Name as Packed>::lemma_unique(a.producer, b.producer, bytes, q);
        q = q + a.producer.packed().len();
        lemma_prefix_concat(a.producer_authority.packed(), a.url.packed() + a.location.packed(), bytes, q);
        lemma_prefix_concat(b.producer_authority.packed(), b.url.packed() + b.location.packed(), bytes, q);
        <BlockSigningAuthority as Packed>::lemma_unique(a.producer_authority, b.producer_authority, bytes, q);
        q = q + a.producer_authority.packed().len();
        lemma_prefix_concat(a.url.packed(), a.location.packed(), bytes, q);
        lemma_prefix_concat(b.url.packed(), b.location.packed(), bytes, q);
        <Vec<u8> as Packed>::lemma_unique(a.url, b.url, bytes, q);
        q = q + a.url.packed().len();
        <u16 as Packed>::lemma_unique(a.location, b.location, bytes, q);
    }

    open spec fn same_value(&self, other: &Self) -> bool {
        &&& self.producer.same_value(&other.producer)
        &&& self.producer_authority.same_value(&other.producer_authority)
        &&& self.url.same_value(&other.url)
        &&& self.location.same_value(&other.location)
    }

    proof fn lemma_injective(a: Self, b: Self) {
        let bytes = a.packed();
        let pos: int = 0;
        assert(bytes.subrange(0, bytes.len() as int) =~= bytes);
        let ghost mut q = pos;
        lemma_prefix_concat(a.producer.packed(), a.producer_authority.packed() + (a.url.packed() + a.location.packed()), bytes, q);
        lemma_prefix_concat(b.producer.packed(), b.producer_authority.packed() + (b.url.packed() + b.location.packed()), bytes, q);
        <Name as Packed>::lemma_unique(a.producer, b.producer, bytes, q);
        <Name as Packed>::lemma_injective(a.producer, b.producer);
        q = q + a.producer.packed().len();
        lemma_prefix_concat(a.producer_authority.packed(), a.url.packed() + a.location.packed(), bytes, q);
        lemma_prefix_concat(b.producer_authority.packed(), b.url.packed() + b.location.packed(), bytes, q);
        <BlockSigningAuthority as Packed>::lemma_unique(a.producer_authority, b.producer_authority, bytes, q);
        <BlockSigningAuthority as Packed>::lemma_injective(a.producer_authority, b.producer_authority);
        q = q + a.producer_authority.packed().len();
        lemma_prefix_concat(a.url.packed(), a.location.packed(), bytes, q);
        lemma_prefix_concat(b.url.packed(), b.location.packed(), bytes, q);
        <Vec<u8> as Packed>::lemma_unique(a.url, b.url, bytes, q);
        <Vec<u8> as Packed>::lemma_injective(a.url, b.url);
        q = q + a.url.packed().len();
        <u16 as Packed>::lemma_unique(a.location, b.location, bytes, q);
        <u16 as Packed>::lemma_injective(a.location, b.location);
    }

    fn num_bytes(&self) -> (n: usize) {
        self.producer.num_bytes() + self.producer_authority.num_bytes() + self.url.num_bytes() + self.location.num_bytes()
    }

    fn read(bytes: &[u8], pos: &mut usize) -> (r: Result<Self, ReadError>) {
        let mut p = *pos;
        let ghost q0: int = p as int;
        let x0 = match <Name as Packed>::read(bytes, &mut p) {
            Ok(x) => x,
            Err(e) => {
                proof {
                    assert forall|v: Regproducer2Args| !prefix_at(#[trigger] v.packed(), bytes@, *old(pos) as int) by {
                        if prefix_at(v.packed(), bytes@, *old(pos) as int) {
                            lemma_prefix_concat(v.producer.packed(), v.producer_authority.packed() + (v.url.packed() + v.location.packed()), bytes@, q0);
                        }
                    }
                }
                return Err(e);
            },
        };
        let ghost q1: int = p as int;
        let x1 = match <BlockSigningAuthority as Packed>::read(bytes, &mut p) {
            Ok(x) => x,
            Err(e) => {
                proof {
                    assert forall|v: Regproducer2Args| !prefix_at(#[trigger] v.packed(), bytes@, *old(pos) as int) by {
                        if prefix_at(v.packed(), bytes@, *old(pos) as int) {
                            lemma_prefix_concat(v.producer.packed(), v.producer_authority.packed() + (v.url.packed() + v.location.packed()), bytes@, q0);
                            <Name as Packed>::lemma_unique(v.producer, x0, bytes@, q0);
                            lemma_prefix_concat(v.producer_authority.packed(), v.url.packed() + v.location.packed(), bytes@, q1);
                        }
                    }
                }
                return Err(e);
            },
        };
        let ghost q2: int = p as int;
        let x2 = match <Vec<u8> as Packed>::read(bytes, &mut p) {
            Ok(x) => x,
            Err(e) => {
                proof {
                    assert forall|v: Regproducer2Args| !prefix_at(#[trigger] v.packed(), bytes@, *old(pos) as int) by {
                        if prefix_at(v.packed(), bytes@, *old(pos) as int) {
                            lemma_prefix_concat(v.producer.packed(), v.producer_authority.packed() + (v.url.packed() + v.location.packed()), bytes@, q0);
                            <Name as Packed>::lemma_unique(v.producer, x0, bytes@, q0);
                            lemma_prefix_concat(v.producer_authority.packed(), v.url.packed() + v.location.packed(), bytes@, q1);
                            <BlockSigningAuthority as Packed>::lemma_unique(v.producer_authority, x1, bytes@, q1);
                            lemma_prefix_concat(v.url.packed(), v.location.packed(), bytes@, q2);
                        }
                    }
                }
                return Err(e);
            },
        };
        let ghost q3: int = p as int;
        let x3 = match <u16 as Packed>::read(bytes, &mut p) {
            Ok(x) => x,
            Err(e) => {
                proof {
                    assert forall|v: Regproducer2Args| !prefix_at(#[trigger] v.packed(), bytes@, *old(pos) as int) by {
                        if prefix_at(v.packed(), bytes@, *old(pos) as int) {
                            lemma_prefix_concat(v.producer.packed(), v.producer_authority.packed() + (v.url.packed() + v.location.packed()), bytes@, q0);
                            <Name as Packed>::lemma_unique(v.producer, x0, bytes@, q0);
                            lemma_prefix_concat(v.producer_authority.packed(), v.url.packed() + v.location.packed(), bytes@, q1);
                            <BlockSigningAuthority as Packed>::lemma_unique(v.producer_authority, x1, bytes@, q1);
                            lemma_prefix_concat(v.url.packed(), v.location.packed(), bytes@, q2);
                            <Vec<u8> as Packed>::lemma_unique(v.url, x2, bytes@, q2);
                        }
                    }
                }
                return Err(e);
            },
        };
        let v = Regproducer2Args { producer: x0, producer_authority: x1, url: x2, location: x3 };
        proof {
            lemma_prefix_concat(v.url.packed(), v.location.packed(), bytes@, q2);
            lemma_prefix_concat(v.producer_authority.packed(), v.url.packed() + v.location.packed(), bytes@, q1);
            lemma_prefix_concat(v.producer.packed(), v.producer_authority.packed() + (v.url.packed() + v.location.packed()), bytes@, q0);
        }
        *pos = p;
        Ok(v)
    }

    fn write(&self, bytes: &mut [u8], pos: &mut usize) -> (r: Result<(), WriteError>) {
        let mut p = *pos;
        let ghost start = *pos as int;
        let ghost buf0 = bytes@;
        match self.producer.write(bytes, &mut p) {
            Err(e) => {
                proof {
                    assert(self.packed() =~= self.producer.packed() + (self.producer_authority.packed() + (self.url.packed() + self.location.packed())));
                }
                return Err(e);
            },
            Ok(()) => {},
        }
        match self.producer_authority.write(bytes, &mut p) {
            Err(e) => {
                proof {
                    assert(self.packed() =~= self.producer.packed() + self.producer_authority.packed() + (self.url.packed() + self.location.packed()));
                }
                return Err(e);
            },
            Ok(()) => {},
        }
        proof {
            lemma_written_concat(buf0, start, self.producer.packed(), self.producer_authority.packed());
        }
        match self.url.write(bytes, &mut p) {
            Err(e) => {
                proof {
                    assert(self.packed() =~= self.producer.packed() + self.producer_authority.packed() + self.url.packed() + (self.location.packed()));
                }
                return Err(e);
            },
            Ok(()) => {},
        }
        proof {
            lemma_written_concat(buf0, start, self.producer.packed() + self.producer_authority.packed(), self.url.packed());
        }
        match self.location.write(bytes, &mut p) {
            Err(e) => {
                proof {
                    assert(self.packed() =~= self.producer.packed() + self.producer_authority.packed() + self.url.packed() + self.location.packed());
                }
                return Err(e);
            },
            Ok(()) => {},
        }
        proof {
            lemma_written_concat(buf0, start, self.producer.packed() + self.producer_authority.packed() + self.url.packed(), self.location.packed());
        }
        proof {
            assert(self.producer.packed() + self.producer_authority.packed() + self.url.packed() + self.location.packed() =~= self.packed());
        }
        *pos = p;
        Ok(())
    }
}

impl Packed for UnregprodArgs {
    open spec fn packed(&self) -> Seq<u8> {
        self.producer.packed()
    }

    proof fn lemma_unique(a: Self, b: Self, bytes: Seq<u8>, pos: int) {
        let ghost mut q = pos;
        <Name as Packed>::lemma_unique(a.producer, b.producer, bytes, q);
    }

    open spec fn same_value(&self, other: &Self) -> bool {
        &&& self.producer.same_value(&other.producer)
    }

    proof fn lemma_injective(a: Self, b: Self) {
        let bytes = a.packed();
        let pos: int = 0;
        assert(bytes.subrange(0, bytes.len() as int) =~= bytes);
        let ghost mut q = pos;
        <Name as Packed>::lemma_unique(a.producer, b.producer, bytes, q);
        <Name as Packed>::lemma_injective(a.producer, b.producer);
    }

    fn num_bytes(&self) -> (n: usize) {
        self.producer.num_bytes()
    }

    fn read(bytes: &[u8], pos: &mut usize) -> (r: Result<Self, ReadError>) {
        let mut p = *pos;
        let ghost q0: int = p as int;
        let x0 = match <Name as Packed>::read(bytes, &mut p) {
            Ok(x) => x,
            Err(e) => {
                proof {
                    assert forall|v: UnregprodArgs| !prefix_at(#[trigger] v.packed(), bytes@, *old(pos) as int) by {
                        if prefix_at(v.packed(), bytes@, *old(pos) as int) {
                        }
                    }
                }
                return Err(e);
            },
        };
        let v = UnregprodArgs { producer: x0 };
        proof {
        }
        *pos = p;
        Ok(v)
    }

    fn write(&self, bytes: &mut [u8], pos: &mut usize) -> (r: Result<(), WriteError>) {
        let mut p = *pos;
        let ghost start = *pos as int;
        let ghost buf0 = bytes@;
        match self.producer.write(bytes, &mut p) {
            Err(e) => {
                return Err(e);
            },
            Ok(()) => {},
        }
        *pos = p;
        Ok(())
    }
}

impl Packed for RegproxyArgs {
    open spec fn packed(&self) -> Seq<u8> {
        self.proxy.packed() + self.is_proxy.packed()
    }

    proof fn lemma_unique(a: Self, b: Self, bytes: Seq<u8>, pos: int) {
        let ghost mut q = pos;
        lemma_prefix_concat(a.proxy.packed(), a.is_proxy.packed(), bytes, q);
        lemma_prefix_concat(b.proxy.packed(), b.is_proxy.packed(), bytes, q);
        <Name as Packed>::lemma_unique(a.proxy, b.proxy, bytes, q);
        q = q + a.proxy.packed().len();
        <bool as Packed>::lemma_unique(a.is_proxy, b.is_proxy, bytes, q);
    }

    open spec fn same_value(&self, other: &Self) -> bool {
        &&& self.proxy.same_value(&other.proxy)
        &&& self.is_proxy.same_value(&other.is_proxy)
    }

    proof fn lemma_injective(a: Self, b: Self) {
        let bytes = a.packed();
        let pos: int = 0;
        assert(bytes.subrange(0, bytes.len() as int) =~= bytes);
        let ghost mut q = pos;
        lemma_prefix_concat(a.proxy.packed(), a.is_proxy.packed(), bytes, q);
        lemma_prefix_concat(b.proxy.packed(), b.is_proxy.packed(), bytes, q);
        <Name as Packed>::lemma_unique(a.proxy, b.proxy, bytes, q);
        <Name as Packed>::lemma_injective(a.proxy, b.proxy);
        q = q + a.proxy.packed().len();
        <bool as Packed>::lemma_unique(a.is_proxy, b.is_proxy, bytes, q);
        <bool as Packed>::lemma_injective(a.is_proxy, b.is_proxy);
    }

    fn num_bytes(&self) -> (n: usize) {
        self.proxy.num_bytes() + self.is_proxy.num_bytes()
    }

    fn read(bytes: &[u8], pos: &mut usize) -> (r: Result<Self, ReadError>) {
        let mut p = *pos;
        let ghost q0: int = p as int;
        let x0 = match <Name as Packed>::read(bytes, &mut p) {
            Ok(x) => x,
            Err(e) => {
                proof {
                    assert forall|v: RegproxyArgs| !prefix_at(#[trigger] v.packed(), bytes@, *old(pos) as int) by {
                        if prefix_at(v.packed(), bytes@, *old(pos) as int) {
                            lemma_prefix_concat(v.proxy.packed(), v.is_proxy.packed(), bytes@, q0);
                        }
                    }
                }
                return Err(e);
            },
        };
        let ghost q1: int = p as int;
        let x1 = match <bool as Packed>::read(bytes, &mut p) {
            Ok(x) => x,
            Err(e) => {
                proof {
                    assert forall|v: RegproxyArgs| !prefix_at(#[trigger] v.packed(), bytes@, *old(pos) as int) by {
                        if prefix_at(v.packed(), bytes@, *old(pos) as int) {
                            lemma_prefix_concat(v.proxy.packed(), v.is_proxy.packed(), bytes@, q0);
                            <Name as Packed>::lemma_unique(v.proxy, x0, bytes@, q0);
                        }
                    }
                }
                return Err(e);
            },
        };
        let v = RegproxyArgs { proxy: x0, is_proxy: x1 };
        proof {
            lemma_prefix_concat(v.proxy.packed(), v.is_proxy.packed(), bytes@, q0);
        }
        *pos = p;
        Ok(v)
    }

    fn write(&self, bytes: &mut [u8], pos: &mut usize) -> (r: Result<(), WriteError>) {
        let mut p = *pos;
        let ghost start = *pos as int;
        let ghost buf0 = bytes@;
        match self.proxy.write(bytes, &mut p) {
            Err(e) => {
                proof {
                    assert(self.packed() =~= self.proxy.packed() + (self.is_proxy.packed()));
                }
                return Err(e);
            },
            Ok(()) => {},
        }
        match self.is_proxy.write(bytes, &mut p) {
            Err(e) => {
                proof {
                    assert(self.packed() =~= self.proxy.packed() + self.is_proxy.packed());
                }
                return Err(e);
            },
            Ok(()) => {},
        }
        proof {
            lemma_written_concat(buf0, start, self.proxy.packed(), self.is_proxy.packed());
        }
        proof {
            assert(self.proxy.packed() + self.is_proxy.packed() =~= self.packed());
        }
        *pos = p;
        Ok(())
    }
}

impl Packed for CreateArgs {
    open spec fn packed(&self) -> Seq<u8> {
        self.issuer.packed() + self.maximum_supply.packed()
    }

    proof fn lemma_unique(a: Self, b: Self, bytes: Seq<u8>, pos: int) {
        let ghost mut q = pos;
        lemma_prefix_concat(a.issuer.packed(), a.maximum_supply.packed(), bytes, q);
        lemma_prefix_concat(b.issuer.packed(), b.maximum_supply.packed(), bytes, q);
        <Name as Packed>::lemma_unique(a.issuer, b.issuer, bytes, q);
        q = q + a.issuer.packed().len();
        <Asset as Packed>::lemma_unique(a.maximum_supply, b.maximum_supply, bytes, q);
    }

    open spec fn same_value(&self, other: &Self) -> bool {
        &&& self.issuer.same_value(&other.issuer)
        &&& self.maximum_supply.same_value(&other.maximum_supply)
    }

    proof fn lemma_injective(a: Self, b: Self) {
        let bytes = a.packed();
        let pos: int = 0;
        assert(bytes.subrange(0, bytes.len() as int) =~= bytes);
        let ghost mut q = pos;
        lemma_prefix_concat(a.issuer.packed(), a.maximum_supply.packed(), bytes, q);
        lemma_prefix_concat(b.issuer.packed(), b.maximum_supply.packed(), bytes, q);
        <Name as Packed>::lemma_unique(a.issuer, b.issuer, bytes, q);
        <Name as Packed>::lemma_injective(a.issuer, b.issuer);
        q = q + a.issuer.packed().len();
        <Asset as Packed>::lemma_unique(a.maximum_supply, b.maximum_supply, bytes, q);
        <Asset as Packed>::lemma_injective(a.maximum_supply, b.maximum_supply);
    }

    fn num_bytes(&self) -> (n: usize) {
        self.issuer.num_bytes() + self.maximum_supply.num_bytes()
    }

    fn read(bytes: &[u8], pos: &mut usize) -> (r: Result<Self, ReadError>) {
        let mut p = *pos;
        let ghost q0: int = p as int;
        let x0 = match <Name as Packed>::read(bytes, &mut p) {
            Ok(x) => x,
            Err(e) => {
                proof {
                    assert forall|v: CreateArgs| !prefix_at(#[trigger] v.packed(), bytes@, *old(pos) as int) by {
                        if prefix_at(v.packed(), bytes@, *old(pos) as int) {
                            lemma_prefix_concat(v.issuer.packed(), v.maximum_supply.packed(), bytes@, q0);
                        }
                    }
                }
                return Err(e);
            },
        };
        let ghost q1: int = p as int;
        let x1 = match <Asset as Packed>::read(bytes, &mut p) {
            Ok(x) => x,
            Err(e) => {
                proof {
                    assert forall|v: CreateArgs| !prefix_at(#[trigger] v.packed(), bytes@, *old(pos) as int) by {
                        if prefix_at(v.packed(), bytes@, *old(pos) as int) {
                            lemma_prefix_concat(v.issuer.packed(), v.maximum_supply.packed(), bytes@, q0);
                            <Name as Packed>::lemma_unique(v.issuer, x0, bytes@, q0);
                        }
                    }
                }
                return Err(e);
            },
        };
        let v = CreateArgs { issuer: x0, maximum_supply: x1 };
        proof {
            lemma_prefix_concat(v.issuer.packed(), v.maximum_supply.packed(), bytes@, q0);
        }
        *pos = p;
        Ok(v)
    }

    fn write(&self, bytes: &mut [u8], pos: &mut usize) -> (r: Result<(), WriteError>) {
        let mut p = *pos;
        let ghost start = *pos as int;
        let ghost buf0 = bytes@;
        match self.issuer.write(bytes, &mut p) {
            Err(e) => {
                proof {
                    assert(self.packed() =~= self.issuer.packed() + (self.maximum_supply.packed()));
                }
                return Err(e);
            },
            Ok(()) => {},
        }
        match self.maximum_supply.write(bytes, &mut p) {
            Err(e) => {
                proof {
                    assert(self.packed() =~= self.issuer.packed() + self.maximum_supply.packed());
                }
                return Err(e);
            },
            Ok(()) => {},
        }
        proof {
            lemma_written_concat(buf0, start, self.issuer.packed(), self.maximum_supply.packed());
        }
        proof {
            assert(self.issuer.packed() + self.maximum_supply.packed() =~= self.packed());
        }
        *pos = p;
        Ok(())
    }
}

impl Packed for IssueArgs {
    open spec fn packed(&self) -> Seq<u8> {
        self.to.packed() + (self.quantity.packed() + self.memo.packed())
    }

    proof fn lemma_unique(a: Self, b: Self, bytes: Seq<u8>, pos: int) {
        let ghost mut q = pos;
        lemma_prefix_concat(a.to.packed(), a.quantity.packed() + a.memo.packed(), bytes, q);
        lemma_prefix_concat(b.to.packed(), b.quantity.packed() + b.memo.packed(), bytes, q);
        <Name as Packed>::lemma_unique(a.to, b.to, bytes, q);
        q = q + a.to.packed().len();
        lemma_prefix_concat(a.quantity.packed(), a.memo.packed(), bytes, q);
        lemma_prefix_concat(b.quantity.packed(), b.memo.packed(), bytes, q);
        <Asset as Packed>::lemma_unique(a.quantity, b.quantity, bytes, q);
        q = q + a.quantity.packed().len();
        <Vec<u8> as Packed>::lemma_unique(a.memo, b.memo, bytes, q);
    }

    open spec fn same_value(&self, other: &Self) -> bool {
        &&& self.to.same_value(&other.to)
        &&& self.quantity.same_value(&other.quantity)
        &&& self.memo.same_value(&other.memo)
    }

    proof fn lemma_injective(a: Self, b: Self) {
        let bytes = a.packed();
        let pos: int = 0;
        assert(bytes.subrange(0, bytes.len() as int) =~= bytes);
        let ghost mut q = pos;
        lemma_prefix_concat(a.to.packed(), a.quantity.packed() + a.memo.packed(), bytes, q);
        lemma_prefix_concat(b.to.packed(), b.quantity.packed() + b.memo.packed(), bytes, q);
        <Name as Packed>::lemma_unique(a.to, b.to, bytes, q);
        <Name as Packed>::lemma_injective(a.to, b.to);
        q = q + a.to.packed().len();
        lemma_prefix_concat(a.quantity.packed(), a.memo.packed(), bytes, q);
        lemma_prefix_concat(b.quantity.packed(), b.memo.packed(), bytes, q);
        <Asset as Packed>::lemma_unique(a.quantity, b.quantity, bytes, q);
        <Asset as Packed>::lemma_injective(a.quantity, b.quantity);
        q = q + a.quantity.packed().len();
        <Vec<u8> as Packed>::lemma_unique(a.memo, b.memo, bytes, q);
        <Vec<u8> as Packed>::lemma_injective(a.memo, b.memo);
    }

    fn num_bytes(&self) -> (n: usize) {
        self.to.num_bytes() + self.quantity.num_bytes() + self.memo.num_bytes()
    }

    fn read(bytes: &[u8], pos: &mut usize) -> (r: Result<Self, ReadError>) {
        let mut p = *pos;
        let ghost q0: int = p as int;
        let x0 = match <Name as Packed>::read(bytes, &mut p) {
            Ok(x) => x,
            Err(e) => {
                proof {
                    assert forall|v: IssueArgs| !prefix_at(#[trigger] v.packed(), bytes@, *old(pos) as int) by {
                        if prefix_at(v.packed(), bytes@, *old(pos) as int) {
                            lemma_prefix_concat(v.to.packed(), v.quantity.packed() + v.memo.packed(), bytes@, q0);
                        }
                    }
                }
                return Err(e);
            },
        };
        let ghost q1: int = p as int;
        let x1 = match <Asset as Packed>::read(bytes, &mut p) {
            Ok(x) => x,
            Err(e) => {
                proof {
                    assert forall|v: IssueArgs| !prefix_at(#[trigger] v.packed(), bytes@, *old(pos) as int) by {
                        if prefix_at(v.packed(), bytes@, *old(pos) as int) {
                            lemma_prefix_concat(v.to.packed(), v.quantity.packed() + v.memo.packed(), bytes@, q0);
                            <Name as Packed>::lemma_unique(v.to, x0, bytes@, q0);
                            lemma_prefix_concat(v.quantity.packed(), v.memo.packed(), bytes@, q1);
                        }
                    }
                }
                return Err(e);
            },
        };
        let ghost q2: int = p as int;
        let x2 = match <Vec<u8> as Packed>::read(bytes, &mut p) {
            Ok(x) => x,
            Err(e) => {
                proof {
                    assert forall|v: IssueArgs| !prefix_at(#[trigger] v.packed(), bytes@, *old(pos) as int) by {
                        if prefix_at(v.packed(), bytes@, *old(pos) as int) {
                            lemma_prefix_concat(v.to.packed(), v.quantity.packed() + v.memo.packed(), bytes@, q0);
                            <Name as Packed>::lemma_unique(v.to, x0, bytes@, q0);
                            lemma_prefix_concat(v.quantity.packed(), v.memo.packed(), bytes@, q1);
                            <Asset as Packed>::lemma_unique(v.quantity, x1, bytes@, q1);
                        }
                    }
                }
                return Err(e);
            },
        };
        let v = IssueArgs { to: x0, quantity: x1, memo: x2 };
        proof {
            lemma_prefix_concat(v.quantity.packed(), v.memo.packed(), bytes@, q1);
            lemma_prefix_concat(v.to.packed(), v.quantity.packed() + v.memo.packed(), bytes@, q0);
        }
        *pos = p;
        Ok(v)
    }

    fn write(&self, bytes: &mut [u8], pos: &mut usize) -> (r: Result<(), WriteError>) {
        let mut p = *pos;
        let ghost start = *pos as int;
        let ghost buf0 = bytes@;
        match self.to.write(bytes, &mut p) {
            Err(e) => {
                proof {
                    assert(self.packed() =~= self.to.packed() + (self.quantity.packed() + self.memo.packed()));
                }
                return Err(e);
            },
            Ok(()) => {},
        }
        match self.quantity.write(bytes, &mut p) {
            Err(e) => {
                proof {
                    assert(self.packed() =~= self.to.packed() + self.quantity.packed() + (self.memo.packed()));
                }
                return Err(e);
            },
            Ok(()) => {},
        }
        proof {
            lemma_written_concat(buf0, start, self.to.packed(), self.quantity.packed());
        }
        match self.memo.write(bytes, &mut p) {
            Err(e) => {
                proof {
                    assert(self.packed() =~= self.to.packed() + self.quantity.packed() + self.memo.packed());
                }
                return Err(e);
            },
            Ok(()) => {},
        }
        proof {
            lemma_written_concat(buf0, start, self.to.packed() + self.quantity.packed(), self.memo.packed());
        }
        proof {
            assert(self.to.packed() + self.quantity.packed() + self.memo.packed() =~= self.packed());
        }
        *pos = p;
        Ok(())
    }
}

impl Packed for RetireArgs {
    open spec fn packed(&self) -> Seq<u8> {
        self.quantity.packed() + self.memo.packed()
    }

    proof fn lemma_unique(a: Self, b: Self, bytes: Seq<u8>, pos: int) {
        let ghost mut q = pos;
        lemma_prefix_concat(a.quantity.packed(), a.memo.packed(), bytes, q);
        lemma_prefix_concat(b.quantity.packed(), b.memo.packed(), bytes, q);
        <Asset as Packed>::lemma_unique(a.quantity, b.quantity, bytes, q);
        q = q + a.quantity.packed().len();
        <Vec<u8> as Packed>::lemma_unique(a.memo, b.memo, bytes, q);
    }

    open spec fn same_value(&self, other: &Self) -> bool {
        &&& self.quantity.same_value(&other.quantity)
        &&& self.memo.same_value(&other.memo)
    }

    proof fn lemma_injective(a: Self, b: Self) {
        let bytes = a.packed();
        let pos: int = 0;
        assert(bytes.subrange(0, bytes.len() as int) =~= bytes);
        let ghost mut q = pos;
        lemma_prefix_concat(a.quantity.packed(), a.memo.packed(), bytes, q);
        lemma_prefix_concat(b.quantity.packed(), b.memo.packed(), bytes, q);
        <Asset as Packed>::lemma_unique(a.quantity, b.quantity, bytes, q);
        <Asset as Packed>::lemma_injective(a.quantity, b.quantity);
        q = q + a.quantity.packed().len();
        <Vec<u8> as Packed>::lemma_unique(a.memo, b.memo, bytes, q);
        <Vec<u8> as Packed>::lemma_injective(a.memo, b.memo);
    }

    fn num_bytes(&self) -> (n: usize) {
        self.quantity.num_bytes() + self.memo.num_bytes()
    }

    fn read(bytes: &[u8], pos: &mut usize) -> (r: Result<Self, ReadError>) {
        let mut p = *pos;
        let ghost q0: int = p as int;
        let x0 = match <Asset as Packed>::read(bytes, &mut p) {
            Ok(x) => x,
            Err(e) => {
                proof {
                    assert forall|v: RetireArgs| !prefix_at(#[trigger] v.packed(), bytes@, *old(pos) as int) by {
                        if prefix_at(v.packed(), bytes@, *old(pos) as int) {
                            lemma_prefix_concat(v.quantity.packed(), v.memo.packed(), bytes@, q0);
                        }
                    }
                }
                return Err(e);
            },
        };
        let ghost q1: int = p as int;
        let x1 = match <Vec<u8> as Packed>::read(bytes, &mut p) {
            Ok(x) => x,
            Err(e) => {
                proof {
                    assert forall|v: RetireArgs| !prefix_at(#[trigger] v.packed(), bytes@, *old(pos) as int) by {
                        if prefix_at(v.packed(), bytes@, *old(pos) as int) {
                            lemma_prefix_concat(v.quantity.packed(), v.memo.packed(), bytes@, q0);
                            <Asset as Packed>::lemma_unique(v.quantity, x0, bytes@, q0);
                        }
                    }
                }
                return Err(e);
            },
        };
        let v = RetireArgs { quantity: x0, memo: x1 };
        proof {
            lemma_prefix_concat(v.quantity.packed(), v.memo.packed(), bytes@, q0);
        }
        *pos = p;
        Ok(v)
    }

    fn write(&self, bytes: &mut [u8], pos: &mut usize) -> (r: Result<(), WriteError>) {
        let mut p = *pos;
        let ghost start = *pos as int;
        let ghost buf0 = bytes@;
        match self.quantity.write(bytes, &mut p) {
            Err(e) => {
                proof {
                    assert(self.packed() =~= self.quantity.packed() + (self.memo.packed()));
                }
                return Err(e);
            },
            Ok(()) => {},
        }
        match self.memo.write(bytes, &mut p) {
            Err(e) => {
                proof {
                    assert(self.packed() =~= self.quantity.packed() + self.memo.packed());
                }
                return Err(e);
            },
            Ok(()) => {},
        }
        proof {
            lemma_written_concat(buf0, start, self.quantity.packed(), self.memo.packed());
        }
        proof {
            assert(self.quantity.packed() + self.memo.packed() =~= self.packed());
        }
        *pos = p;
        Ok(())
    }
}

impl Packed for TransferArgs {
    open spec fn packed(&self) -> Seq<u8> {
        self.from.packed() + (self.to.packed() + (self.quantity.packed() + self.memo.packed()))
    }

    proof fn lemma_unique(a: Self, b: Self, bytes: Seq<u8>, pos: int) {
        let ghost mut q = pos;
        lemma_prefix_concat(a.from.packed(), a.to.packed() + (a.quantity.packed() + a.memo.packed()), bytes, q);
        lemma_prefix_concat(b.from.packed(), b.to.packed() + (b.quantity.packed() + b.memo.packed()), bytes, q);
        <Name as Packed>::lemma_unique(a.from, b.from, bytes, q);
        q = q + a.from.packed().len();
        lemma_prefix_concat(a.to.packed(), a.quantity.packed() + a.memo.packed(), bytes, q);
        lemma_prefix_concat(b.to.packed(), b.quantity.packed() + b.memo.packed(), bytes, q);
        <Name as Packed>::lemma_unique(a.to, b.to, bytes, q);
        q = q + a.to.packed().len();
        lemma_prefix_concat(a.quantity.packed(), a.memo.packed(), bytes, q);
        lemma_prefix_concat(b.quantity.packed(), b.memo.packed(), bytes, q);
        <Asset as Packed>::lemma_unique(a.quantity, b.quantity, bytes, q);
        q = q + a.quantity.packed().len();
        <Vec<u8> as Packed>::lemma_unique(a.memo, b.memo, bytes, q);
    }

    open spec fn same_value(&self, other: &Self) -> bool {
        &&& self.from.same_value(&other.from)
        &&& self.to.same_value(&other.to)
        &&& self.quantity.same_value(&other.quantity)
        &&& self.memo.same_value(&other.memo)
    }

    proof fn lemma_injective(a: Self, b: Self) {
        let bytes = a.packed();
        let pos: int = 0;
        assert(bytes.subrange(0, bytes.len() as int) =~= bytes);
        let ghost mut q = pos;
        lemma_prefix_concat(a.from.packed(), a.to.packed() + (a.quantity.packed() + a.memo.packed()), bytes, q);
        lemma_prefix_concat(b.from.packed(), b.to.packed() + (b.quantity.packed() + b.memo.packed()), bytes, q);
        <Name as Packed>::lemma_unique(a.from, b.from, bytes, q);
        <Name as Packed>::lemma_injective(a.from, b.from);
        q = q + a.from.packed().len();
        lemma_prefix_concat(a.to.packed(), a.quantity.packed() + a.memo.packed(), bytes, q);
        lemma_prefix_concat(b.to.packed(), b.quantity.packed() + b.memo.packed(), bytes, q);
        <Name as Packed>::lemma_unique(a.to, b.to, bytes, q);
        <Name as Packed>::lemma_injective(a.to, b.to);
        q = q + a.to.packed().len();
        lemma_prefix_concat(a.quantity.packed(), a.memo.packed(), bytes, q);
        lemma_prefix_concat(b.quantity.packed(), b.memo.packed(), bytes, q);
        <Asset as Packed>::lemma_unique(a.quantity, b.quantity, bytes, q);
        <Asset as Packed>::lemma_injective(a.quantity, b.quantity);
        q = q + a.quantity.packed().len();
        <Vec<u8> as Packed>::lemma_unique(a.memo, b.memo, bytes, q);
        <Vec<u8> as Packed>::lemma_injective(a.memo, b.memo);
    }

    fn num_bytes(&self) -> (n: usize) {
        self.from.num_bytes() + self.to.num_bytes() + self.quantity.num_bytes() + self.memo.num_bytes()
    }

    fn read(bytes: &[u8], pos: &mut usize) -> (r: Result<Self, ReadError>) {
        let mut p = *pos;
        let ghost q0: int = p as int;
        let x0 = match <Name as Packed>::read(bytes, &mut p) {
            Ok(x) => x,
            Err(e) => {
                proof {
                    assert forall|v: TransferArgs| !prefix_at(#[trigger] v.packed(), bytes@, *old(pos) as int) by {
                        if prefix_at(v.packed(), bytes@, *old(pos) as int) {
                            lemma_prefix_concat(v.from.packed(), v.to.packed() + (v.quantity.packed() + v.memo.packed()), bytes@, q0);
                        }
                    }
                }
                return Err(e);
            },
        };
        let ghost q1: int = p as int;
        let x1 = match <Name as Packed>::read(bytes, &mut p) {
            Ok(x) => x,
            Err(e) => {
                proof {
                    assert forall|v: TransferArgs| !prefix_at(#[trigger] v.packed(), bytes@, *old(pos) as int) by {
                        if prefix_at(v.packed(), bytes@, *old(pos) as int) {
                            lemma_prefix_concat(v.from.packed(), v.to.packed() + (v.quantity.packed() + v.memo.packed()), bytes@, q0);
                            <Name as Packed>::lemma_unique(v.from, x0, bytes@, q0);
                            lemma_prefix_concat(v.to.packed(), v.quantity.packed() + v.memo.packed(), bytes@, q1);
                        }
                    }
                }
                return Err(e);
            },
        };
        let ghost q2: int = p as int;
        let x2 = match <Asset as Packed>::read(bytes, &mut p) {
            Ok(x) => x,
            Err(e) => {
                proof {
                    assert forall|v: TransferArgs| !prefix_at(#[trigger] v.packed(), bytes@, *old(pos) as int) by {
                        if prefix_at(v.packed(), bytes@, *old(pos) as int) {
                            lemma_prefix_concat(v.from.packed(), v.to.packed() + (v.quantity.packed() + v.memo.packed()), bytes@, q0);
                            <Name as Packed>::lemma_unique(v.from, x0, bytes@, q0);
                            lemma_prefix_concat(v.to.packed(), v.quantity.packed() + v.memo.packed(), bytes@, q1);
                            <Name as Packed>::lemma_unique(v.to, x1, bytes@, q1);
                            lemma_prefix_concat(v.quantity.packed(), v.memo.packed(), bytes@, q2);
                        }
                    }
                }
                return Err(e);
            },
        };
        let ghost q3: int = p as int;
        let x3 = match <Vec<u8> as Packed>::read(bytes, &mut p) {
            Ok(x) => x,
            Err(e) => {
                proof {
                    assert forall|v: TransferArgs| !prefix_at(#[trigger] v.packed(), bytes@, *old(pos) as int) by {
                        if prefix_at(v.packed(), bytes@, *old(pos) as int) {
                            lemma_prefix_concat(v.from.packed(), v.to.packed() + (v.quantity.packed() + v.memo.packed()), bytes@, q0);
                            <Name as Packed>::lemma_unique(v.from, x0, bytes@, q0);
                            lemma_prefix_concat(v.to.packed(), v.quantity.packed() + v.memo.packed(), bytes@, q1);
                            <Name as Packed>::lemma_unique(v.to, x1, bytes@, q1);
                            lemma_prefix_concat(v.quantity.packed(), v.memo.packed(), bytes@, q2);
                            <Asset as Packed>::lemma_unique(v.quantity, x2, bytes@, q2);
                        }
                    }
                }
                return Err(e);
            },
        };
        let v = TransferArgs { from: x0, to: x1, quantity: x2, memo: x3 };
        proof {
            lemma_prefix_concat(v.quantity.packed(), v.memo.packed(), bytes@, q2);
            lemma_prefix_concat(v.to.packed(), v.quantity.packed() + v.memo.packed(), bytes@, q1);
            lemma_prefix_concat(v.from.packed(), v.to.packed() + (v.quantity.packed() + v.memo.packed()), bytes@, q0);
        }
        *pos = p;
        Ok(v)
    }

    fn write(&self, bytes: &mut [u8], pos: &mut usize) -> (r: Result<(), WriteError>) {
        let mut p = *pos;
        let ghost start = *pos as int;
        let ghost buf0 = bytes@;
        match self.from.write(bytes, &mut p) {
            Err(e) => {
                proof {
                    assert(self.packed() =~= self.from.packed() + (self.to.packed() + (self.quantity.packed() + self.memo.packed())));
                }
                return Err(e);
            },
            Ok(()) => {},
        }
        match self.to.write(bytes, &mut p) {
            Err(e) => {
                proof {
                    assert(self.packed() =~= self.from.packed() + self.to.packed() + (self.quantity.packed() + self.memo.packed()));
                }
                return Err(e);
            },
            Ok(()) => {},
        }
        proof {
            lemma_written_concat(buf0, start, self.from.packed(), self.to.packed());
        }
        match self.quantity.write(bytes, &mut p) {
            Err(e) => {
                proof {
                    assert(self.packed() =~= self.from.packed() + self.to.packed() + self.quantity.packed() + (self.memo.packed()));
                }
                return Err(e);
            },
            Ok(()) => {},
        }
        proof {
            lemma_written_concat(buf0, start, self.from.packed() + self.to.packed(), self.quantity.packed());
        }
        match self.memo.write(bytes, &mut p) {
            Err(e) => {
                proof {
                    assert(self.packed() =~= self.from.packed() + self.to.packed() + self.quantity.packed() + self.memo.packed());
                }
                return Err(e);
            },
            Ok(()) => {},
        }
        proof {
            lemma_written_concat(buf0, start, self.from.packed() + self.to.packed() + self.quantity.packed(), self.memo.packed());
        }
        proof {
            assert(self.from.packed() + self.to.packed() + self.quantity.packed() + self.memo.packed() =~= self.packed());
        }
        *pos = p;
        Ok(())
    }
}

impl Packed for OpenArgs {
    open spec fn packed(&self) -> Seq<u8> {
        self.owner.packed() + (self.symbol.packed() + self.ram_payer.packed())
    }

    proof fn lemma_unique(a: Self, b: Self, bytes: Seq<u8>, pos: int) {
        let ghost mut q = pos;
        lemma_prefix_concat(a.owner.packed(), a.symbol.packed() + a.ram_payer.packed(), bytes, q);
        lemma_prefix_concat(b.owner.packed(), b.symbol.packed() + b.ram_payer.packed(), bytes, q);
        <Name as Packed>::lemma_unique(a.owner, b.owner, bytes, q);
        q = q + a.owner.packed().len();
        lemma_prefix_concat(a.symbol.packed(), a.ram_payer.packed(), bytes, q);
        lemma_prefix_concat(b.symbol.packed(), b.ram_payer.packed(), bytes, q);
        <Symbol as Packed>::lemma_unique(a.symbol, b.symbol, bytes, q);
        q = q + a.symbol.packed().len();
        <Name as Packed>::lemma_unique(a.ram_payer, b.ram_payer, bytes, q);
    }

    open spec fn same_value(&self, other: &Self) -> bool {
        &&& self.owner.same_value(&other.owner)
        &&& self.symbol.same_value(&other.symbol)
        &&& self.ram_payer.same_value(&other.ram_payer)
    }

    proof fn lemma_injective(a: Self, b: Self) {
        let bytes = a.packed();
        let pos: int = 0;
        assert(bytes.subrange(0, bytes.len() as int) =~= bytes);
        let ghost mut q = pos;
        lemma_prefix_concat(a.owner.packed(), a.symbol.packed() + a.ram_payer.packed(), bytes, q);
        lemma_prefix_concat(b.owner.packed(), b.symbol.packed() + b.ram_payer.packed(), bytes, q);
        <Name as Packed>::lemma_unique(a.owner, b.owner, bytes, q);
        <Name as Packed>::lemma_injective(a.owner, b.owner);
        q = q + a.owner.packed().len();
        lemma_prefix_concat(a.symbol.packed(), a.ram_payer.packed(), bytes, q);
        lemma_prefix_concat(b.symbol.packed(), b.ram_payer.packed(), bytes, q);
        <Symbol as Packed>::lemma_unique(a.symbol, b.symbol, bytes, q);
        <Symbol as Packed>::lemma_injective(a.symbol, b.symbol);
        q = q + a.symbol.packed().len();
        <Name as Packed>::lemma_unique(a.ram_payer, b.ram_payer, bytes, q);
        <Name as Packed>::lemma_injective(a.ram_payer, b.ram_payer);
    }

    fn num_bytes(&self) -> (n: usize) {
        self.owner.num_bytes() + self.symbol.num_bytes() + self.ram_payer.num_bytes()
    }

    fn read(bytes: &[u8], pos: &mut usize) -> (r: Result<Self, ReadError>) {
        let mut p = *pos;
        let ghost q0: int = p as int;
        let x0 = match <Name as Packed>::read(bytes, &mut p) {
            Ok(x) => x,
            Err(e) => {
                proof {
                    assert forall|v: OpenArgs| !prefix_at(#[trigger] v.packed(), bytes@, *old(pos) as int) by {
                        if prefix_at(v.packed(), bytes@, *old(pos) as int) {
                            lemma_prefix_concat(v.owner.packed(), v.symbol.packed() + v.ram_payer.packed(), bytes@, q0);
                        }
                    }
                }
                return Err(e);
            },
        };
        let ghost q1: int = p as int;
        let x1 = match <Symbol as Packed>::read(bytes, &mut p) {
            Ok(x) => x,
            Err(e) => {
                proof {
                    assert forall|v: OpenArgs| !prefix_at(#[trigger] v.packed(), bytes@, *old(pos) as int) by {
                        if prefix_at(v.packed(), bytes@, *old(pos) as int) {
                            lemma_prefix_concat(v.owner.packed(), v.symbol.packed() + v.ram_payer.packed(), bytes@, q0);
                            <Name as Packed>::lemma_unique(v.owner, x0, bytes@, q0);
                            lemma_prefix_concat(v.symbol.packed(), v.ram_payer.packed(), bytes@, q1);
                        }
                    }
                }
                return Err(e);
            },
        };
        let ghost q2: int = p as int;
        let x2 = match <Name as Packed>::read(bytes, &mut p) {
            Ok(x) => x,
            Err(e) => {
                proof {
                    assert forall|v: OpenArgs| !prefix_at(#[trigger] v.packed(), bytes@, *old(pos) as int) by {
                        if prefix_at(v.packed(), bytes@, *old(pos) as int) {
                            lemma_prefix_concat(v.owner.packed(), v.symbol.packed() + v.ram_payer.packed(), bytes@, q0);
                            <Name as Packed>::lemma_unique(v.owner, x0, bytes@, q0);
                            lemma_prefix_concat(v.symbol.packed(), v.ram_payer.packed(), bytes@, q1);
                            <Symbol as Packed>::lemma_unique(v.symbol, x1, bytes@, q1);
                        }
                    }
                }
                return Err(e);
            },
        };
        let v = OpenArgs { owner: x0, symbol: x1, ram_payer: x2 };
        proof {
            lemma_prefix_concat(v.symbol.packed(), v.ram_payer.packed(), bytes@, q1);
            lemma_prefix_concat(v.owner.packed(), v.symbol.packed() + v.ram_payer.packed(), bytes@, q0);
        }
        *pos = p;
        Ok(v)
    }

    fn write(&self, bytes: &mut [u8], pos: &mut usize) -> (r: Result<(), WriteError>) {
        let mut p = *pos;
        let ghost start = *pos as int;
        let ghost buf0 = bytes@;
        match self.owner.write(bytes, &mut p) {
            Err(e) => {
                proof {
                    assert(self.packed() =~= self.owner.packed() + (self.symbol.packed() + self.ram_payer.packed()));
                }
                return Err(e);
            },
            Ok(()) => {},
        }
        match self.symbol.write(bytes, &mut p) {
            Err(e) => {
                proof {
                    assert(self.packed() =~= self.owner.packed() + self.symbol.packed() + (self.ram_payer.packed()));
                }
                return Err(e);
            },
            Ok(()) => {},
        }
        proof {
            lemma_written_concat(buf0, start, self.owner.packed(), self.symbol.packed());
        }
        match self.ram_payer.write(bytes, &mut p) {
            Err(e) => {
                proof {
                    assert(self.packed() =~= self.owner.packed() + self.symbol.packed() + self.ram_payer.packed());
                }
                return Err(e);
            },
            Ok(()) => {},
        }
        proof {
            lemma_written_concat(buf0, start, self.owner.packed() + self.symbol.packed(), self.ram_payer.packed());
        }
        proof {
            assert(self.owner.packed() + self.symbol.packed() + self.ram_payer.packed() =~= self.packed());
        }
        *pos = p;
        Ok(())
    }
}

impl Packed for CloseArgs {
    open spec fn packed(&self) -> Seq<u8> {
        self.owner.packed() + self.symbol.packed()
    }

    proof fn lemma_unique(a: Self, b: Self, bytes: Seq<u8>, pos: int) {
        let ghost mut q = pos;
        lemma_prefix_concat(a.owner.packed(), a.symbol.packed(), bytes, q);
        lemma_prefix_concat(b.owner.packed(), b.symbol.packed(), bytes, q);
        <Name as Packed>::lemma_unique(a.owner, b.owner, bytes, q);
        q = q + a.owner.packed().len();
        <Symbol as Packed>::lemma_unique(a.symbol, b.symbol, bytes, q);
    }

    open spec fn same_value(&self, other: &Self) -> bool {
        &&& self.owner.same_value(&other.owner)
        &&& self.symbol.same_value(&other.symbol)
    }

    proof fn lemma_injective(a: Self, b: Self) {
        let bytes = a.packed();
        let pos: int = 0;
        assert(bytes.subrange(0, bytes.len() as int) =~= bytes);
        let ghost mut q = pos;
        lemma_prefix_concat(a.owner.packed(), a.symbol.packed(), bytes, q);
        lemma_prefix_concat(b.owner.packed(), b.symbol.packed(), bytes, q);
        <Name as Packed>::lemma_unique(a.owner, b.owner, bytes, q);
        <Name as Packed>::lemma_injective(a.owner, b.owner);
        q = q + a.owner.packed().len();
        <Symbol as Packed>::lemma_unique(a.symbol, b.symbol, bytes, q);
        <Symbol as Packed>::lemma_injective(a.symbol, b.symbol);
    }

    fn num_bytes(&self) -> (n: usize) {
        self.owner.num_bytes() + self.symbol.num_bytes()
    }

    fn read(bytes: &[u8], pos: &mut usize) -> (r: Result<Self, ReadError>) {
        let mut p = *pos;
        let ghost q0: int = p as int;
        let x0 = match <Name as Packed>::read(bytes, &mut p) {
            Ok(x) => x,
            Err(e) => {
                proof {
                    assert forall|v: CloseArgs| !prefix_at(#[trigger] v.packed(), bytes@, *old(pos) as int) by {
                        if prefix_at(v.packed(), bytes@, *old(pos) as int) {
                            lemma_prefix_concat(v.owner.packed(), v.symbol.packed(), bytes@, q0);
                        }
                    }
                }
                return Err(e);
            },
        };
        let ghost q1: int = p as int;
        let x1 = match <Symbol as Packed>::read(bytes, &mut p) {
            Ok(x) => x,
            Err(e) => {
                proof {
                    assert forall|v: CloseArgs| !prefix_at(#[trigger] v.packed(), bytes@, *old(pos) as int) by {
                        if prefix_at(v.packed(), bytes@, *old(pos) as int) {
                            lemma_prefix_concat(v.owner.packed(), v.symbol.packed(), bytes@, q0);
                            <Name as Packed>::lemma_unique(v.owner, x0, bytes@, q0);
                        }
                    }
                }
                return Err(e);
            },
        };
        let v = CloseArgs { owner: x0, symbol: x1 };
        proof {
            lemma_prefix_concat(v.owner.packed(), v.symbol.packed(), bytes@, q0);
        }
        *pos = p;
        Ok(v)
    }

    fn write(&self, bytes: &mut [u8], pos: &mut usize) -> (r: Result<(), WriteError>) {
        let mut p = *pos;
        let ghost start = *pos as int;
        let ghost buf0 = bytes@;
        match self.owner.write(bytes, &mut p) {
            Err(e) => {
                proof {
                    assert(self.packed() =~= self.owner.packed() + (self.symbol.packed()));
                }
                return Err(e);
            },
            Ok(()) => {},
        }
        match self.symbol.write(bytes, &mut p) {
            Err(e) => {
                proof {
                    assert(self.packed() =~= self.owner.packed() + self.symbol.packed());
                }
                return Err(e);
            },
            Ok(()) => {},
        }
        proof {
            lemma_written_concat(buf0, start, self.owner.packed(), self.symbol.packed());
        }
        proof {
            assert(self.owner.packed() + self.symbol.packed() =~= self.packed());
        }
        *pos = p;
        Ok(())
    }
}

impl Packed for ProposeArgs {
    open spec fn packed(&self) -> Seq<u8> {
        self.proposer.packed() + (self.proposal_name.packed() + (self.requested.packed() + self.trx.packed()))
    }

    proof fn lemma_unique(a: Self, b: Self, bytes: Seq<u8>, pos: int) {
        let ghost mut q = pos;
        lemma_prefix_concat(a.proposer.packed(), a.proposal_name.packed() + (a.requested.packed() + a.trx.packed()), bytes, q);
        lemma_prefix_concat(b.proposer.packed(), b.proposal_name.packed() + (b.requested.packed() + b.trx.packed()), bytes, q);
        <Name as Packed>::lemma_unique(a.proposer, b.proposer, bytes, q);
        q = q + a.proposer.packed().len();
        lemma_prefix_concat(a.proposal_name.packed(), a.requested.packed() + a.trx.packed(), bytes, q);
        lemma_prefix_concat(b.proposal_name.packed(), b.requested.packed() + b.trx.packed(), bytes, q);
        <Name as Packed>::lemma_unique(a.proposal_name, b.proposal_name, bytes, q);
        q = q + a.proposal_name.packed().len();
        lemma_prefix_concat(a.requested.packed(), a.trx.packed(), bytes, q);
        lemma_prefix_concat(b.requested.packed(), b.trx.packed(), bytes, q);
        <Vec<PermissionLevel> as Packed>::lemma_unique(a.requested, b.requested, bytes, q);
        q = q + a.requested.packed().len();
        <Transaction as Packed>::lemma_unique(a.trx, b.trx, bytes, q);
    }

    open spec fn same_value(&self, other: &Self) -> bool {
        &&& self.proposer.same_value(&other.proposer)
        &&& self.proposal_name.same_value(&other.proposal_name)
        &&& self.requested.same_value(&other.requested)
        &&& self.trx.same_value(&other.trx)
    }

    proof fn lemma_injective(a: Self, b: Self) {
        let bytes = a.packed();
        let pos: int = 0;
        assert(bytes.subrange(0, bytes.len() as int) =~= bytes);
        let ghost mut q = pos;
        lemma_prefix_concat(a.proposer.packed(), a.proposal_name.packed() + (a.requested.packed() + a.trx.packed()), bytes, q);
        lemma_prefix_concat(b.proposer.packed(), b.proposal_name.packed() + (b.requested.packed() + b.trx.packed()), bytes, q);
        <Name as Packed>::lemma_unique(a.proposer, b.proposer, bytes, q);
        <Name as Packed>::lemma_injective(a.proposer, b.proposer);
        q = q + a.proposer.packed().len();
        lemma_prefix_concat(a.proposal_name.packed(), a.requested.packed() + a.trx.packed(), bytes, q);
        lemma_prefix_concat(b.proposal_name.packed(), b.requested.packed() + b.trx.packed(), bytes, q);
        <Name as Packed>::lemma_unique(a.proposal_name, b.proposal_name, bytes, q);
        <Name as Packed>::lemma_injective(a.proposal_name, b.proposal_name);
        q = q + a.proposal_name.packed().len();
        lemma_prefix_concat(a.requested.packed(), a.trx.packed(), bytes, q);
        lemma_prefix_concat(b.requested.packed(), b.trx.packed(), bytes, q);
        <Vec<PermissionLevel> as Packed>::lemma_unique(a.requested, b.requested, bytes, q);
        <Vec<PermissionLevel> as Packed>::lemma_injective(a.requested, b.requested);
        q = q + a.requested.packed().len();
        <Transaction as Packed>::lemma_unique(a.trx, b.trx, bytes, q);
        <Transaction as Packed>::lemma_injective(a.trx, b.trx);
    }

    fn num_bytes(&self) -> (n: usize) {
        self.proposer.num_bytes() + self.proposal_name.num_bytes() + self.requested.num_bytes() + self.trx.num_bytes()
    }

    fn read(bytes: &[u8], pos: &mut usize) -> (r: Result<Self, ReadError>) {
        let mut p = *pos;
        let ghost q0: int = p as int;
        let x0 = match <Name as Packed>::read(bytes, &mut p) {
            Ok(x) => x,
            Err(e) => {
                proof {
                    assert forall|v: ProposeArgs| !prefix_at(#[trigger] v.packed(), bytes@, *old(pos) as int) by {
                        if prefix_at(v.packed(), bytes@, *old(pos) as int) {
                            lemma_prefix_concat(v.proposer.packed(), v.proposal_name.packed() + (v.requested.packed() + v.trx.packed()), bytes@, q0);
                        }
                    }
                }
                return Err(e);
            },
        };
        let ghost q1: int = p as int;
        let x1 = match <Name as Packed>::read(bytes, &mut p) {
            Ok(x) => x,
            Err(e) => {
                proof {
                    assert forall|v: ProposeArgs| !prefix_at(#[trigger] v.packed(), bytes@, *old(pos) as int) by {
                        if prefix_at(v.packed(), bytes@, *old(pos) as int) {
                            lemma_prefix_concat(v.proposer.packed(), v.proposal_name.packed() + (v.requested.packed() + v.trx.packed()), bytes@, q0);
                            <Name as Packed>::lemma_unique(v.proposer, x0, bytes@, q0);
                            lemma_prefix_concat(v.proposal_name.packed(), v.requested.packed() + v.trx.packed(), bytes@, q1);
                        }
                    }
                }
                return Err(e);
            },
        };
        let ghost q2: int = p as int;
        let x2 = match <Vec<PermissionLevel> as Packed>::read(bytes, &mut p) {
            Ok(x) => x,
            Err(e) => {
                proof {
                    assert forall|v: ProposeArgs| !prefix_at(#[trigger] v.packed(), bytes@, *old(pos) as int) by {
                        if prefix_at(v.packed(), bytes@, *old(pos) as int) {
                            lemma_prefix_concat(v.proposer.packed(), v.proposal_name.packed() + (v.requested.packed() + v.trx.packed()), bytes@, q0);
                            <Name as Packed>::lemma_unique(v.proposer, x0, bytes@, q0);
                            lemma_prefix_concat(v.proposal_name.packed(), v.requested.packed() + v.trx.packed(), bytes@, q1);
                            <Name as Packed>::lemma_unique(v.proposal_name, x1, bytes@, q1);
                            lemma_prefix_concat(v.requested.packed(), v.trx.packed(), bytes@, q2);
                        }
                    }
                }
                return Err(e);
            },
        };
        let ghost q3: int = p as int;
        let x3 = match <Transaction as Packed>::read(bytes, &mut p) {
            Ok(x) => x,
            Err(e) => {
                proof {
                    assert forall|v: ProposeArgs| !prefix_at(#[trigger] v.packed(), bytes@, *old(pos) as int) by {
                        if prefix_at(v.packed(), bytes@, *old(pos) as int) {
                            lemma_prefix_concat(v.proposer.packed(), v.proposal_name.packed() + (v.requested.packed() + v.trx.packed()), bytes@, q0);
                            <Name as Packed>::lemma_unique(v.proposer, x0, bytes@, q0);
                            lemma_prefix_concat(v.proposal_name.packed(), v.requested.packed() + v.trx.packed(), bytes@, q1);
                            <Name as Packed>::lemma_unique(v.proposal_name, x1, bytes@, q1);
                            lemma_prefix_concat(v.requested.packed(), v.trx.packed(), bytes@, q2);
                            <Vec<PermissionLevel> as Packed>::lemma_unique(v.requested, x2, bytes@, q2);
                        }
                    }
                }
                return Err(e);
            },
        };
        let v = ProposeArgs { proposer: x0, proposal_name: x1, requested: x2, trx: x3 };
        proof {
            lemma_prefix_concat(v.requested.packed(), v.trx.packed(), bytes@, q2);
            lemma_prefix_concat(v.proposal_name.packed(), v.requested.packed() + v.trx.packed(), bytes@, q1);
            lemma_prefix_concat(v.proposer.packed(), v.proposal_name.packed() + (v.requested.packed() + v.trx.packed()), bytes@, q0);
        }
        *pos = p;
        Ok(v)
    }

    fn write(&self, bytes: &mut [u8], pos: &mut usize) -> (r: Result<(), WriteError>) {
        let mut p = *pos;
        let ghost start = *pos as int;
        let ghost buf0 = bytes@;
        match self.proposer.write(bytes, &mut p) {
            Err(e) => {
                proof {
                    assert(self.packed() =~= self.proposer.packed() + (self.proposal_name.packed() + (self.requested.packed() + self.trx.packed())));
                }
                return Err(e);
            },
            Ok(()) => {},
        }
        match self.proposal_name.write(bytes, &mut p) {
            Err(e) => {
                proof {
                    assert(self.packed() =~= self.proposer.packed() + self.proposal_name.packed() + (self.requested.packed() + self.trx.packed()));
                }
                return Err(e);
            },
            Ok(()) => {},
        }
        proof {
            lemma_written_concat(buf0, start, self.proposer.packed(), self.proposal_name.packed());
        }
        match self.requested.write(bytes, &mut p) {
            Err(e) => {
                proof {
                    assert(self.packed() =~= self.proposer.packed() + self.proposal_name.packed() + self.requested.packed() + (self.trx.packed()));
                }
                return Err(e);
            },
            Ok(()) => {},
        }
        proof {
            lemma_written_concat(buf0, start, self.proposer.packed() + self.proposal_name.packed(), self.requested.packed());
        }
        match self.trx.write(bytes, &mut p) {
            Err(e) => {
                proof {
                    assert(self.packed() =~= self.proposer.packed() + self.proposal_name.packed() + self.requested.packed() + self.trx.packed());
                }
                return Err(e);
            },
            Ok(()) => {},
        }
        proof {
            lemma_written_concat(buf0, start, self.proposer.packed() + self.proposal_name.packed() + self.requested.packed(), self.trx.packed());
        }
        proof {
            assert(self.proposer.packed() + self.proposal_name.packed() + self.requested.packed() + self.trx.packed() =~= self.packed());
        }
        *pos = p;
        Ok(())
    }
}

impl Packed for ApproveArgs {
    open spec fn packed(&self) -> Seq<u8> {
        self.proposer.packed() + (self.proposal_name.packed() + (self.level.packed() + self.proposal_hash.packed()))
    }

    proof fn lemma_unique(a: Self, b: Self, bytes: Seq<u8>, pos: int) {
        let ghost mut q = pos;
        lemma_prefix_concat(a.proposer.packed(), a.proposal_name.packed() + (a.level.packed() + a.proposal_hash.packed()), bytes, q);
        lemma_prefix_concat(b.proposer.packed(), b.proposal_name.packed() + (b.level.packed() + b.proposal_hash.packed()), bytes, q);
        <Name as Packed>::lemma_unique(a.proposer, b.proposer, bytes, q);
        q = q + a.proposer.packed().len();
        lemma_prefix_concat(a.proposal_name.packed(), a.level.packed() + a.proposal_hash.packed(), bytes, q);
        lemma_prefix_concat(b.proposal_name.packed(), b.level.packed() + b.proposal_hash.packed(), bytes, q);
        <Name as Packed>::lemma_unique(a.proposal_name, b.proposal_name, bytes, q);
        q = q + a.proposal_name.packed().len();
        lemma_prefix_concat(a.level.packed(), a.proposal_hash.packed(), bytes, q);
        lemma_prefix_concat(b.level.packed(), b.proposal_hash.packed(), bytes, q);
        <PermissionLevel as Packed>::lemma_unique(a.level, b.level, bytes, q);
        q = q + a.level.packed().len();
        <Checksum256 as Packed>::lemma_unique(a.proposal_hash, b.proposal_hash, bytes, q);
    }

    open spec fn same_value(&self, other: &Self) -> bool {
        &&& self.proposer.same_value(&other.proposer)
        &&& self.proposal_name.same_value(&other.proposal_name)
        &&& self.level.same_value(&other.level)
        &&& self.proposal_hash.same_value(&other.proposal_hash)
    }

    proof fn lemma_injective(a: Self, b: Self) {
        let bytes = a.packed();
        let pos: int = 0;
        assert(bytes.subrange(0, bytes.len() as int) =~= bytes);
        let ghost mut q = pos;
        lemma_prefix_concat(a.proposer.packed(), a.proposal_name.packed() + (a.level.packed() + a.proposal_hash.packed()), bytes, q);
        lemma_prefix_concat(b.proposer.packed(), b.proposal_name.packed() + (b.level.packed() + b.proposal_hash.packed()), bytes, q);
        <Name as Packed>::lemma_unique(a.proposer, b.proposer, bytes, q);
        <Name as Packed>::lemma_injective(a.proposer, b.proposer);
        q = q + a.proposer.packed().len();
        lemma_prefix_concat(a.proposal_name.packed(), a.level.packed() + a.proposal_hash.packed(), bytes, q);
        lemma_prefix_concat(b.proposal_name.packed(), b.level.packed() + b.proposal_hash.packed(), bytes, q);
        <Name as Packed>::lemma_unique(a.proposal_name, b.proposal_name, bytes, q);
        <Name as Packed>::lemma_injective(a.proposal_name, b.proposal_name);
        q = q + a.proposal_name.packed().len();
        lemma_prefix_concat(a.level.packed(), a.proposal_hash.packed(), bytes, q);
        lemma_prefix_concat(b.level.packed(), b.proposal_hash.packed(), bytes, q);
        <PermissionLevel as Packed>::lemma_unique(a.level, b.level, bytes, q);
        <PermissionLevel as Packed>::lemma_injective(a.level, b.level);
        q = q + a.level.packed().len();
        <Checksum256 as Packed>::lemma_unique(a.proposal_hash, b.proposal_hash, bytes, q);
        <Checksum256 as Packed>::lemma_injective(a.proposal_hash, b.proposal_hash);
    }

    fn num_bytes(&self) -> (n: usize) {
        self.proposer.num_bytes() + self.proposal_name.num_bytes() + self.level.num_bytes() + self.proposal_hash.num_bytes()
    }

    fn read(bytes: &[u8], pos: &mut usize) -> (r: Result<Self, ReadError>) {
        let mut p = *pos;
        let ghost q0: int = p as int;
        let x0 = match <Name as Packed>::read(bytes, &mut p) {
            Ok(x) => x,
            Err(e) => {
                proof {
                    assert forall|v: ApproveArgs| !prefix_at(#[trigger] v.packed(), bytes@, *old(pos) as int) by {
                        if prefix_at(v.packed(), bytes@, *old(pos) as int) {
                            lemma_prefix_concat(v.proposer.packed(), v.proposal_name.packed() + (v.level.packed() + v.proposal_hash.packed()), bytes@, q0);
                        }
                    }
                }
                return Err(e);
            },
        };
        let ghost q1: int = p as int;
        let x1 = match <Name as Packed>::read(bytes, &mut p) {
            Ok(x) => x,
            Err(e) => {
                proof {
                    assert forall|v: ApproveArgs| !prefix_at(#[trigger] v.packed(), bytes@, *old(pos) as int) by {
                        if prefix_at(v.packed(), bytes@, *old(pos) as int) {
                            lemma_prefix_concat(v.proposer.packed(), v.proposal_name.packed() + (v.level.packed() + v.proposal_hash.packed()), bytes@, q0);
                            <Name as Packed>::lemma_unique(v.proposer, x0, bytes@, q0);
                            lemma_prefix_concat(v.proposal_name.packed(), v.level.packed() + v.proposal_hash.packed(), bytes@, q1);
                        }
                    }
                }
                return Err(e);
            },
        };
        let ghost q2: int = p as int;
        let x2 = match <PermissionLevel as Packed>::read(bytes, &mut p) {
            Ok(x) => x,
            Err(e) => {
                proof {
                    assert forall|v: ApproveArgs| !prefix_at(#[trigger] v.packed(), bytes@, *old(pos) as int) by {
                        if prefix_at(v.packed(), bytes@, *old(pos) as int) {
                            lemma_prefix_concat(v.proposer.packed(), v.proposal_name.packed() + (v.level.packed() + v.proposal_hash.packed()), bytes@, q0);
                            <Name as Packed>::lemma_unique(v.proposer, x0, bytes@, q0);
                            lemma_prefix_concat(v.proposal_name.packed(), v.level.packed() + v.proposal_hash.packed(), bytes@, q1);
                            <Name as Packed>::lemma_unique(v.proposal_name, x1, bytes@, q1);
                            lemma_prefix_concat(v.level.packed(), v.proposal_hash.packed(), bytes@, q2);
                        }
                    }
                }
                return Err(e);
            },
        };
        let ghost q3: int = p as int;
        let x3 = match <Checksum256 as Packed>::read(bytes, &mut p) {
            Ok(x) => x,
            Err(e) => {
                proof {
                    assert forall|v: ApproveArgs| !prefix_at(#[trigger] v.packed(), bytes@, *old(pos) as int) by {
                        if prefix_at(v.packed(), bytes@, *old(pos) as int) {
                            lemma_prefix_concat(v.proposer.packed(), v.proposal_name.packed() + (v.level.packed() + v.proposal_hash.packed()), bytes@, q0);
                            <Name as Packed>::lemma_unique(v.proposer, x0, bytes@, q0);
                            lemma_prefix_concat(v.proposal_name.packed(), v.level.packed() + v.proposal_hash.packed(), bytes@, q1);
                            <Name as Packed>::lemma_unique(v.proposal_name, x1, bytes@, q1);
                            lemma_prefix_concat(v.level.packed(), v.proposal_hash.packed(), bytes@, q2);
                            <PermissionLevel as Packed>::lemma_unique(v.level, x2, bytes@, q2);
                        }
                    }
                }
                return Err(e);
            },
        };
        let v = ApproveArgs { proposer: x0, proposal_name: x1, level: x2, proposal_hash: x3 };
        proof {
            lemma_prefix_concat(v.level.packed(), v.proposal_hash.packed(), bytes@, q2);
            lemma_prefix_concat(v.proposal_name.packed(), v.level.packed() + v.proposal_hash.packed(), bytes@, q1);
            lemma_prefix_concat(v.proposer.packed(), v.proposal_name.packed() + (v.level.packed() + v.proposal_hash.packed()), bytes@, q0);
        }
        *pos = p;
        Ok(v)
    }

    fn write(&self, bytes: &mut [u8], pos: &mut usize) -> (r: Result<(), WriteError>) {
        let mut p = *pos;
        let ghost start = *pos as int;
        let ghost buf0 = bytes@;
        match self.proposer.write(bytes, &mut p) {
            Err(e) => {
                proof {
                    assert(self.packed() =~= self.proposer.packed() + (self.proposal_name.packed() + (self.level.packed() + self.proposal_hash.packed())));
                }
                return Err(e);
            },
            Ok(()) => {},
        }
        match self.proposal_name.write(bytes, &mut p) {
            Err(e) => {
                proof {
                    assert(self.packed() =~= self.proposer.packed() + self.proposal_name.packed() + (self.level.packed() + self.proposal_hash.packed()));
                }
                return Err(e);
            },
            Ok(()) => {},
        }
        proof {
            lemma_written_concat(buf0, start, self.proposer.packed(), self.proposal_name.packed());
        }
        match self.level.write(bytes, &mut p) {
            Err(e) => {
                proof {
                    assert(self.packed() =~= self.proposer.packed() + self.proposal_name.packed() + self.level.packed() + (self.proposal_hash.packed()));
                }
                return Err(e);
            },
            Ok(()) => {},
        }
        proof {
            lemma_written_concat(buf0, start, self.proposer.packed() + self.proposal_name.packed(), self.level.packed());
        }
        match self.proposal_hash.write(bytes, &mut p) {
            Err(e) => {
                proof {
                    assert(self.packed() =~= self.proposer.packed() + self.proposal_name.packed() + self.level.packed() + self.proposal_hash.packed());
                }
                return Err(e);
            },
            Ok(()) => {},
        }
        proof {
            lemma_written_concat(buf0, start, self.proposer.packed() + self.proposal_name.packed() + self.level.packed(), self.proposal_hash.packed());
        }
        proof {
            assert(self.proposer.packed() + self.proposal_name.packed() + self.level.packed() + self.proposal_hash.packed() =~= self.packed());
        }
        *pos = p;
        Ok(())
    }
}

impl Packed for UnapproveArgs {
    open spec fn packed(&self) -> Seq<u8> {
        self.proposer.packed() + (self.proposal_name.packed() + self.level.packed())
    }

    proof fn lemma_unique(a: Self, b: Self, bytes: Seq<u8>, pos: int) {
        let ghost mut q = pos;
        lemma_prefix_concat(a.proposer.packed(), a.proposal_name.packed() + a.level.packed(), bytes, q);
        lemma_prefix_concat(b.proposer.packed(), b.proposal_name.packed() + b.level.packed(), bytes, q);
        <Name as Packed>::lemma_unique(a.proposer, b.proposer, bytes, q);
        q = q + a.proposer.packed().len();
        lemma_prefix_concat(a.proposal_name.packed(), a.level.packed(), bytes, q);
        lemma_prefix_concat(b.proposal_name.packed(), b.level.packed(), bytes, q);
        <Name as Packed>::lemma_unique(a.proposal_name, b.proposal_name, bytes, q);
        q = q + a.proposal_name.packed().len();
        <PermissionLevel as Packed>::lemma_unique(a.level, b.level, bytes, q);
    }

    open spec fn same_value(&self, other: &Self) -> bool {
        &&& self.proposer.same_value(&other.proposer)
        &&& self.proposal_name.same_value(&other.proposal_name)
        &&& self.level.same_value(&other.level)
    }

    proof fn lemma_injective(a: Self, b: Self) {
        let bytes = a.packed();
        let pos: int = 0;
        assert(bytes.subrange(0, bytes.len() as int) =~= bytes);
        let ghost mut q = pos;
        lemma_prefix_concat(a.proposer.packed(), a.proposal_name.packed() + a.level.packed(), bytes, q);
        lemma_prefix_concat(b.proposer.packed(), b.proposal_name.packed() + b.level.packed(), bytes, q);
        <Name as Packed>::lemma_unique(a.proposer, b.proposer, bytes, q);
        <Name as Packed>::lemma_injective(a.proposer, b.proposer);
        q = q + a.proposer.packed().len();
        lemma_prefix_concat(a.proposal_name.packed(), a.level.packed(), bytes, q);
        lemma_prefix_concat(b.proposal_name.packed(), b.level.packed(), bytes, q);
        <Name as Packed>::lemma_unique(a.proposal_name, b.proposal_name, bytes, q);
        <Name as Packed>::lemma_injective(a.proposal_name, b.proposal_name);
        q = q + a.proposal_name.packed().len();
        <PermissionLevel as Packed>::lemma_unique(a.level, b.level, bytes, q);
        <PermissionLevel as Packed>::lemma_injective(a.level, b.level);
    }

    fn num_bytes(&self) -> (n: usize) {
        self.proposer.num_bytes() + self.proposal_name.num_bytes() + self.level.num_bytes()
    }

    fn read(bytes: &[u8], pos: &mut usize) -> (r: Result<Self, ReadError>) {
        let mut p = *pos;
        let ghost q0: int = p as int;
        let x0 = match <Name as Packed>::read(bytes, &mut p) {
            Ok(x) => x,
            Err(e) => {
                proof {
                    assert forall|v: UnapproveArgs| !prefix_at(#[trigger] v.packed(), bytes@, *old(pos) as int) by {
                        if prefix_at(v.packed(), bytes@, *old(pos) as int) {
                            lemma_prefix_concat(v.proposer.packed(), v.proposal_name.packed() + v.level.packed(), bytes@, q0);
                        }
                    }
                }
                return Err(e);
            },
        };
        let ghost q1: int = p as int;
        let x1 = match <Name as Packed>::read(bytes, &mut p) {
            Ok(x) => x,
            Err(e) => {
                proof {
                    assert forall|v: UnapproveArgs| !prefix_at(#[trigger] v.packed(), bytes@, *old(pos) as int) by {
                        if prefix_at(v.packed(), bytes@, *old(pos) as int) {
                            lemma_prefix_concat(v.proposer.packed(), v.proposal_name.packed() + v.level.packed(), bytes@, q0);
                            <Name as Packed>::lemma_unique(v.proposer, x0, bytes@, q0);
                            lemma_prefix_concat(v.proposal_name.packed(), v.level.packed(), bytes@, q1);
                        }
                    }
                }
                return Err(e);
            },
        };
        let ghost q2: int = p as int;
        let x2 = match <PermissionLevel as Packed>::read(bytes, &mut p) {
            Ok(x) => x,
            Err(e) => {
                proof {
                    assert forall|v: UnapproveArgs| !prefix_at(#[trigger] v.packed(), bytes@, *old(pos) as int) by {
                        if prefix_at(v.packed(), bytes@, *old(pos) as int) {
                            lemma_prefix_concat(v.proposer.packed(), v.proposal_name.packed() + v.level.packed(), bytes@, q0);
                            <Name as Packed>::lemma_unique(v.proposer, x0, bytes@, q0);
                            lemma_prefix_concat(v.proposal_name.packed(), v.level.packed(), bytes@, q1);
                            <Name as Packed>::lemma_unique(v.proposal_name, x1, bytes@, q1);
                        }
                    }
                }
                return Err(e);
            },
        };
        let v = UnapproveArgs { proposer: x0, proposal_name: x1, level: x2 };
        proof {
            lemma_prefix_concat(v.proposal_name.packed(), v.level.packed(), bytes@, q1);
            lemma_prefix_concat(v.proposer.packed(), v.proposal_name.packed() + v.level.packed(), bytes@, q0);
        }
        *pos = p;
        Ok(v)
    }

    fn write(&self, bytes: &mut [u8], pos: &mut usize) -> (r: Result<(), WriteError>) {
        let mut p = *pos;
        let ghost start = *pos as int;
        let ghost buf0 = bytes@;
        match self.proposer.write(bytes, &mut p) {
            Err(e) => {
                proof {
                    assert(self.packed() =~= self.proposer.packed() + (self.proposal_name.packed() + self.level.packed()));
                }
                return Err(e);
            },
            Ok(()) => {},
        }
        match self.proposal_name.write(bytes, &mut p) {
            Err(e) => {
                proof {
                    assert(self.packed() =~= self.proposer.packed() + self.proposal_name.packed() + (self.level.packed()));
                }
                return Err(e);
            },
            Ok(()) => {},
        }
        proof {
            lemma_written_concat(buf0, start, self.proposer.packed(), self.proposal_name.packed());
        }
        match self.level.write(bytes, &mut p) {
            Err(e) => {
                proof {
                    assert(self.packed() =~= self.proposer.packed() + self.proposal_name.packed() + self.level.packed());
                }
                return Err(e);
            },
            Ok(()) => {},
        }
        proof {
            lemma_written_concat(buf0, start, self.proposer.packed() + self.proposal_name.packed(), self.level.packed());
        }
        proof {
            assert(self.proposer.packed() + self.proposal_name.packed() + self.level.packed() =~= self.packed());
        }
        *pos = p;
        Ok(())
    }
}

impl Packed for CancelArgs {
    open spec fn packed(&self) -> Seq<u8> {
        self.proposer.packed() + (self.proposal_name.packed() + self.canceler.packed())
    }

    proof fn lemma_unique(a: Self, b: Self, bytes: Seq<u8>, pos: int) {
        let ghost mut q = pos;
        lemma_prefix_concat(a.proposer.packed(), a.proposal_name.packed() + a.canceler.packed(), bytes, q);
        lemma_prefix_concat(b.proposer.packed(), b.proposal_name.packed() + b.canceler.packed(), bytes, q);
        <Name as Packed>::lemma_unique(a.proposer, b.proposer, bytes, q);
        q = q + a.proposer.packed().len();
        lemma_prefix_concat(a.proposal_name.packed(), a.canceler.packed(), bytes, q);
        lemma_prefix_concat(b.proposal_name.packed(), b.canceler.packed(), bytes, q);
        <Name as Packed>::lemma_unique(a.proposal_name, b.proposal_name, bytes, q);
        q = q + a.proposal_name.packed().len();
        <Name as Packed>::lemma_unique(a.canceler, b.canceler, bytes, q);
    }

    open spec fn same_value(&self, other: &Self) -> bool {
        &&& self.proposer.same_value(&other.proposer)
        &&& self.proposal_name.same_value(&other.proposal_name)
        &&& self.canceler.same_value(&other.canceler)
    }

    proof fn lemma_injective(a: Self, b: Self) {
        let bytes = a.packed();
        let pos: int = 0;
        assert(bytes.subrange(0, bytes.len() as int) =~= bytes);
        let ghost mut q = pos;
        lemma_prefix_concat(a.proposer.packed(), a.proposal_name.packed() + a.canceler.packed(), bytes, q);
        lemma_prefix_concat(b.proposer.packed(), b.proposal_name.packed() + b.canceler.packed(), bytes, q);
        <Name as Packed>::lemma_unique(a.proposer, b.proposer, bytes, q);
        <Name as Packed>::lemma_injective(a.proposer, b.proposer);
        q = q + a.proposer.packed().len();
        lemma_prefix_concat(a.proposal_name.packed(), a.canceler.packed(), bytes, q);
        lemma_prefix_concat(b.proposal_name.packed(), b.canceler.packed(), bytes, q);
        <Name as Packed>::lemma_unique(a.proposal_name, b.proposal_name, bytes, q);
        <Name as Packed>::lemma_injective(a.proposal_name, b.proposal_name);
        q = q + a.proposal_name.packed().len();
        <Name as Packed>::lemma_unique(a.canceler, b.canceler, bytes, q);
        <Name as Packed>::lemma_injective(a.canceler, b.canceler);
    }

    fn num_bytes(&self) -> (n: usize) {
        self.proposer.num_bytes() + self.proposal_name.num_bytes() + self.canceler.num_bytes()
    }

    fn read(bytes: &[u8], pos: &mut usize) -> (r: Result<Self, ReadError>) {
        let mut p = *pos;
        let ghost q0: int = p as int;
        let x0 = match <Name as Packed>::read(bytes, &mut p) {
            Ok(x) => x,
            Err(e) => {
                proof {
                    assert forall|v: CancelArgs| !prefix_at(#[trigger] v.packed(), bytes@, *old(pos) as int) by {
                        if prefix_at(v.packed(), bytes@, *old(pos) as int) {
                            lemma_prefix_concat(v.proposer.packed(), v.proposal_name.packed() + v.canceler.packed(), bytes@, q0);
                        }
                    }
                }
                return Err(e);
            },
        };
        let ghost q1: int = p as int;
        let x1 = match <Name as Packed>::read(bytes, &mut p) {
            Ok(x) => x,
            Err(e) => {
                proof {
                    assert forall|v: CancelArgs| !prefix_at(#[trigger] v.packed(), bytes@, *old(pos) as int) by {
                        if prefix_at(v.packed(), bytes@, *old(pos) as int) {
                            lemma_prefix_concat(v.proposer.packed(), v.proposal_name.packed() + v.canceler.packed(), bytes@, q0);
                            <Name as Packed>::lemma_unique(v.proposer, x0, bytes@, q0);
                            lemma_prefix_concat(v.proposal_name.packed(), v.canceler.packed(), bytes@, q1);
                        }
                    }
                }
                return Err(e);
            },
        };
        let ghost q2: int = p as int;
        let x2 = match <Name as Packed>::read(bytes, &mut p) {
            Ok(x) => x,
            Err(e) => {
                proof {
                    assert forall|v: CancelArgs| !prefix_at(#[trigger] v.packed(), bytes@, *old(pos) as int) by {
                        if prefix_at(v.packed(), bytes@, *old(pos) as int) {
                            lemma_prefix_concat(v.proposer.packed(), v.proposal_name.packed() + v.canceler.packed(), bytes@, q0);
                            <Name as Packed>::lemma_unique(v.proposer, x0, bytes@, q0);
                            lemma_prefix_concat(v.proposal_name.packed(), v.canceler.packed(), bytes@, q1);
                            <Name as Packed>::lemma_unique(v.proposal_name, x1, bytes@, q1);
                        }
                    }
                }
                return Err(e);
            },
        };
        let v = CancelArgs { proposer: x0, proposal_name: x1, canceler: x2 };
        proof {
            lemma_prefix_concat(v.proposal_name.packed(), v.canceler.packed(), bytes@, q1);
            lemma_prefix_concat(v.proposer.packed(), v.proposal_name.packed() + v.canceler.packed(), bytes@, q0);
        }
        *pos = p;
        Ok(v)
    }

    fn write(&self, bytes: &mut [u8], pos: &mut usize) -> (r: Result<(), WriteError>) {
        let mut p = *pos;
        let ghost start = *pos as int;
        let ghost buf0 = bytes@;
        match self.proposer.write(bytes, &mut p) {
            Err(e) => {
                proof {
                    assert(self.packed() =~= self.proposer.packed() + (self.proposal_name.packed() + self.canceler.packed()));
                }
                return Err(e);
            },
            Ok(()) => {},
        }
        match self.proposal_name.write(bytes, &mut p) {
            Err(e) => {
                proof {
                    assert(self.packed() =~= self.proposer.packed() + self.proposal_name.packed() + (self.canceler.packed()));
                }
                return Err(e);
            },
            Ok(()) => {},
        }
        proof {
            lemma_written_concat(buf0, start, self.proposer.packed(), self.proposal_name.packed());
        }
        match self.canceler.write(bytes, &mut p) {
            Err(e) => {
                proof {
                    assert(self.packed() =~= self.proposer.packed() + self.proposal_name.packed() + self.canceler.packed());
                }
                return Err(e);
            },
            Ok(()) => {},
        }
        proof {
            lemma_written_concat(buf0, start, self.proposer.packed() + self.proposal_name.packed(), self.canceler.packed());
        }
        proof {
            assert(self.proposer.packed() + self.proposal_name.packed() + self.canceler.packed() =~= self.packed());
        }
        *pos = p;
        Ok(())
    }
}

impl Packed for ExecArgs {
    open spec fn packed(&self) -> Seq<u8> {
        self.proposer.packed() + (self.proposal_name.packed() + self.executer.packed())
    }

    proof fn lemma_unique(a: Self, b: Self, bytes: Seq<u8>, pos: int) {
        let ghost mut q = pos;
        lemma_prefix_concat(a.proposer.packed(), a.proposal_name.packed() + a.executer.packed(), bytes, q);
        lemma_prefix_concat(b.proposer.packed(), b.proposal_name.packed() + b.executer.packed(), bytes, q);
        <Name as Packed>::lemma_unique(a.proposer, b.proposer, bytes, q);
        q = q + a.proposer.packed().len();
        lemma_prefix_concat(a.proposal_name.packed(), a.executer.packed(), bytes, q);
        lemma_prefix_concat(b.proposal_name.packed(), b.executer.packed(), bytes, q);
        <Name as Packed>::lemma_unique(a.proposal_name, b.proposal_name, bytes, q);
        q = q + a.proposal_name.packed().len();
        <Name as Packed>::lemma_unique(a.executer, b.executer, bytes, q);
    }

    open spec fn same_value(&self, other: &Self) -> bool {
        &&& self.proposer.same_value(&other.proposer)
        &&& self.proposal_name.same_value(&other.proposal_name)
        &&& self.executer.same_value(&other.executer)
    }

    proof fn lemma_injective(a: Self, b: Self) {
        let bytes = a.packed();
        let pos: int = 0;
        assert(bytes.subrange(0, bytes.len() as int) =~= bytes);
        let ghost mut q = pos;
        lemma_prefix_concat(a.proposer.packed(), a.proposal_name.packed() + a.executer.packed(), bytes, q);
        lemma_prefix_concat(b.proposer.packed(), b.proposal_name.packed() + b.executer.packed(), bytes, q);
        <Name as Packed>::lemma_unique(a.proposer, b.proposer, bytes, q);
        <Name as Packed>::lemma_injective(a.proposer, b.proposer);
        q = q + a.proposer.packed().len();
        lemma_prefix_concat(a.proposal_name.packed(), a.executer.packed(), bytes, q);
        lemma_prefix_concat(b.proposal_name.packed(), b.executer.packed(), bytes, q);
        <Name as Packed>::lemma_unique(a.proposal_name, b.proposal_name, bytes, q);
        <Name as Packed>::lemma_injective(a.proposal_name, b.proposal_name);
        q = q + a.proposal_name.packed().len();
        <Name as Packed>::lemma_unique(a.executer, b.executer, bytes, q);
        <Name as Packed>::lemma_injective(a.executer, b.executer);
    }

    fn num_bytes(&self) -> (n: usize) {
        self.proposer.num_bytes() + self.proposal_name.num_bytes() + self.executer.num_bytes()
    }

    fn read(bytes: &[u8], pos: &mut usize) -> (r: Result<Self, ReadError>) {
        let mut p = *pos;
        let ghost q0: int = p as int;
        let x0 = match <Name as Packed>::read(bytes, &mut p) {
            Ok(x) => x,
            Err(e) => {
                proof {
                    assert forall|v: ExecArgs| !prefix_at(#[trigger] v.packed(), bytes@, *old(pos) as int) by {
                        if prefix_at(v.packed(), bytes@, *old(pos) as int) {
                            lemma_prefix_concat(v.proposer.packed(), v.proposal_name.packed() + v.executer.packed(), bytes@, q0);
                        }
                    }
                }
                return Err(e);
            },
        };
        let ghost q1: int = p as int;
        let x1 = match <Name as Packed>::read(bytes, &mut p) {
            Ok(x) => x,
            Err(e) => {
                proof {
                    assert forall|v: ExecArgs| !prefix_at(#[trigger] v.packed(), bytes@, *old(pos) as int) by {
                        if prefix_at(v.packed(), bytes@, *old(pos) as int) {
                            lemma_prefix_concat(v.proposer.packed(), v.proposal_name.packed() + v.executer.packed(), bytes@, q0);
                            <Name as Packed>::lemma_unique(v.proposer, x0, bytes@, q0);
                            lemma_prefix_concat(v.proposal_name.packed(), v.executer.packed(), bytes@, q1);
                        }
                    }
                }
                return Err(e);
            },
        };
        let ghost q2: int = p as int;
        let x2 = match <Name as Packed>::read(bytes, &mut p) {
            Ok(x) => x,
            Err(e) => {
                proof {
                    assert forall|v: ExecArgs| !prefix_at(#[trigger] v.packed(), bytes@, *old(pos) as int) by {
                        if prefix_at(v.packed(), bytes@, *old(pos) as int) {
                            lemma_prefix_concat(v.proposer.packed(), v.proposal_name.packed() + v.executer.packed(), bytes@, q0);
                            <Name as Packed>::lemma_unique(v.proposer, x0, bytes@, q0);
                            lemma_prefix_concat(v.proposal_name.packed(), v.executer.packed(), bytes@, q1);
                            <Name as Packed>::lemma_unique(v.proposal_name, x1, bytes@, q1);
                        }
                    }
                }
                return Err(e);
            },
        };
        let v = ExecArgs { proposer: x0, proposal_name: x1, executer: x2 };
        proof {
            lemma_prefix_concat(v.proposal_name.packed(), v.executer.packed(), bytes@, q1);
            lemma_prefix_concat(v.proposer.packed(), v.proposal_name.packed() + v.executer.packed(), bytes@, q0);
        }
        *pos = p;
        Ok(v)
    }

    fn write(&self, bytes: &mut [u8], pos: &mut usize) -> (r: Result<(), WriteError>) {
        let mut p = *pos;
        let ghost start = *pos as int;
        let ghost buf0 = bytes@;
        match self.proposer.write(bytes, &mut p) {
            Err(e) => {
                proof {
                    assert(self.packed() =~= self.proposer.packed() + (self.proposal_name.packed() + self.executer.packed()));
                }
                return Err(e);
            },
            Ok(()) => {},
        }
        match self.proposal_name.write(bytes, &mut p) {
            Err(e) => {
                proof {
                    assert(self.packed() =~= self.proposer.packed() + self.proposal_name.packed() + (self.executer.packed()));
                }
                return Err(e);
            },
            Ok(()) => {},
        }
        proof {
            lemma_written_concat(buf0, start, self.proposer.packed(), self.proposal_name.packed());
        }
        match self.executer.write(bytes, &mut p) {
            Err(e) => {
                proof {
                    assert(self.packed() =~= self.proposer.packed() + self.proposal_name.packed() + self.executer.packed());
                }
                return Err(e);
            },
            Ok(()) => {},
        }
        proof {
            lemma_written_concat(buf0, start, self.proposer.packed() + self.proposal_name.packed(), self.executer.packed());
        }
        proof {
            assert(self.proposer.packed() + self.proposal_name.packed() + self.executer.packed() =~= self.packed());
        }
        *pos = p;
        Ok(())
    }
}

impl Packed for InvalidateArgs {
    open spec fn packed(&self) -> Seq<u8> {
        self.account.packed()
    }

    proof fn lemma_unique(a: Self, b: Self, bytes: Seq<u8>, pos: int) {
        let ghost mut q = pos;
        <Name as Packed>::lemma_unique(a.account, b.account, bytes, q);
    }

    open spec fn same_value(&self, other: &Self) -> bool {
        &&& self.account.same_value(&other.account)
    }

    proof fn lemma_injective(a: Self, b: Self) {
        let bytes = a.packed();
        let pos: int = 0;
        assert(bytes.subrange(0, bytes.len() as int) =~= bytes);
        let ghost mut q = pos;
        <Name as Packed>::lemma_unique(a.account, b.account, bytes, q);
        <Name as Packed>::lemma_injective(a.account, b.account);
    }

    fn num_bytes(&self) -> (n: usize) {
        self.account.num_bytes()
    }

    fn read(bytes: &[u8], pos: &mut usize) -> (r: Result<Self, ReadError>) {
        let mut p = *pos;
        let ghost q0: int = p as int;
        let x0 = match <Name as Packed>::read(bytes, &mut p) {
            Ok(x) => x,
            Err(e) => {
                proof {
                    assert forall|v: InvalidateArgs| !prefix_at(#[trigger] v.packed(), bytes@, *old(pos) as int) by {
                        if prefix_at(v.packed(), bytes@, *old(pos) as int) {
                        }
                    }
                }
                return Err(e);
            },
        };
        let v = InvalidateArgs { account: x0 };
        proof {
        }
        *pos = p;
        Ok(v)
    }

    fn write(&self, bytes: &mut [u8], pos: &mut usize) -> (r: Result<(), WriteError>) {
        let mut p = *pos;
        let ghost start = *pos as int;
        let ghost buf0 = bytes@;
        match self.account.write(bytes, &mut p) {
            Err(e) => {
                return Err(e);
            },
            Ok(()) => {},
        }
        *pos = p;
        Ok(())
    }
}


impl Packed for SetalimitsArgs {
    open spec fn packed(&self) -> Seq<u8> {
        self.account.packed() + (self.ram_bytes.packed() + (self.net_weight.packed() + self.cpu_weight.packed()))
    }

    proof fn lemma_unique(a: Self, b: Self, bytes: Seq<u8>, pos: int) {
        let ghost mut q = pos;
        lemma_prefix_concat(a.account.packed(), a.ram_bytes.packed() + (a.net_weight.packed() + a.cpu_weight.packed()), bytes, q);
        lemma_prefix_concat(b.account.packed(), b.ram_bytes.packed() + (b.net_weight.packed() + b.cpu_weight.packed()), bytes, q);
        <Name as Packed>::lemma_unique(a.account, b.account, bytes, q);
        q = q + a.account.packed().len();
        lemma_prefix_concat(a.ram_bytes.packed(), a.net_weight.packed() + a.cpu_weight.packed(), bytes, q);
        lemma_prefix_concat(b.ram_bytes.packed(), b.net_weight.packed() + b.cpu_weight.packed(), bytes, q);
        <i64 as Packed>::lemma_unique(a.ram_bytes, b.ram_bytes, bytes, q);
        q = q + a.ram_bytes.packed().len();
        lemma_prefix_concat(a.net_weight.packed(), a.cpu_weight.packed(), bytes, q);
        lemma_prefix_concat(b.net_weight.packed(), b.cpu_weight.packed(), bytes, q);
        <i64 as Packed>::lemma_unique(a.net_weight, b.net_weight, bytes, q);
        q = q + a.net_weight.packed().len();
        <i64 as Packed>::lemma_unique(a.cpu_weight, b.cpu_weight, bytes, q);
    }

    open spec fn same_value(&self, other: &Self) -> bool {
        &&& self.account.same_value(&other.account)
        &&& self.ram_bytes.same_value(&other.ram_bytes)
        &&& self.net_weight.same_value(&other.net_weight)
        &&& self.cpu_weight.same_value(&other.cpu_weight)
    }

    proof fn lemma_injective(a: Self, b: Self) {
        let bytes = a.packed();
        let pos: int = 0;
        assert(bytes.subrange(0, bytes.len() as int) =~= bytes);
        let ghost mut q = pos;
        lemma_prefix_concat(a.account.packed(), a.ram_bytes.packed() + (a.net_weight.packed() + a.cpu_weight.packed()), bytes, q);
        lemma_prefix_concat(b.account.packed(), b.ram_bytes.packed() + (b.net_weight.packed() + b.cpu_weight.packed()), bytes, q);
        <Name as Packed>::lemma_unique(a.account, b.account, bytes, q);
        <Name as Packed>::lemma_injective(a.account, b.account);
        q = q + a.account.packed().len();
        lemma_prefix_concat(a.ram_bytes.packed(), a.net_weight.packed() + a.cpu_weight.packed(), bytes, q);
        lemma_prefix_concat(b.ram_bytes.packed(), b.net_weight.packed() + b.cpu_weight.packed(), bytes, q);
        <i64 as Packed>::lemma_unique(a.ram_bytes, b.ram_bytes, bytes, q);
        <i64 as Packed>::lemma_injective(a.ram_bytes, b.ram_bytes);
        q = q + a.ram_bytes.packed().len();
        lemma_prefix_concat(a.net_weight.packed(), a.cpu_weight.packed(), bytes, q);
        lemma_prefix_concat(b.net_weight.packed(), b.cpu_weight.packed(), bytes, q);
        <i64 as Packed>::lemma_unique(a.net_weight, b.net_weight, bytes, q);
        <i64 as Packed>::lemma_injective(a.net_weight, b.net_weight);
        q = q + a.net_weight.packed().len();
        <i64 as Packed>::lemma_unique(a.cpu_weight, b.cpu_weight, bytes, q);
        <i64 as Packed>::lemma_injective(a.cpu_weight, b.cpu_weight);
    }

    fn num_bytes(&self) -> (n: usize) {
        self.account.num_bytes() + self.ram_bytes.num_bytes() + self.net_weight.num_bytes() + self.cpu_weight.num_bytes()
    }

    fn read(bytes: &[u8], pos: &mut usize) -> (r: Result<Self, ReadError>) {
        let mut p = *pos;
        let ghost q0: int = p as int;
        let x0 = match <Name as Packed>::read(bytes, &mut p) {
            Ok(x) => x,
            Err(e) => {
                proof {
                    assert forall|v: SetalimitsArgs| !prefix_at(#[trigger] v.packed(), bytes@, *old(pos) as int) by {
                        if prefix_at(v.packed(), bytes@, *old(pos) as int) {
                            lemma_prefix_concat(v.account.packed(), v.ram_bytes.packed() + (v.net_weight.packed() + v.cpu_weight.packed()), bytes@, q0);
                        }
                    }
                }
                return Err(e);
            },
        };
        let ghost q1: int = p as int;
        let x1 = match <i64 as Packed>::read(bytes, &mut p) {
            Ok(x) => x,
            Err(e) => {
                proof {
                    assert forall|v: SetalimitsArgs| !prefix_at(#[trigger] v.packed(), bytes@, *old(pos) as int) by {
                        if prefix_at(v.packed(), bytes@, *old(pos) as int) {
                            lemma_prefix_concat(v.account.packed(), v.ram_bytes.packed() + (v.net_weight.packed() + v.cpu_weight.packed()), bytes@, q0);
                            <Name as Packed>::lemma_unique(v.account, x0, bytes@, q0);
                            lemma_prefix_concat(v.ram_bytes.packed(), v.net_weight.packed() + v.cpu_weight.packed(), bytes@, q1);
                        }
                    }
                }
                return Err(e);
            },
        };
        let ghost q2: int = p as int;
        let x2 = match <i64 as Packed>::read(bytes, &mut p) {
            Ok(x) => x,
            Err(e) => {
                proof {
                    assert forall|v: SetalimitsArgs| !prefix_at(#[trigger] v.packed(), bytes@, *old(pos) as int) by {
                        if prefix_at(v.packed(), bytes@, *old(pos) as int) {
                            lemma_prefix_concat(v.account.packed(), v.ram_bytes.packed() + (v.net_weight.packed() + v.cpu_weight.packed()), bytes@, q0);
                            <Name as Packed>::lemma_unique(v.account, x0, bytes@, q0);
                            lemma_prefix_concat(v.ram_bytes.packed(), v.net_weight.packed() + v.cpu_weight.packed(), bytes@, q1);
                            <i64 as Packed>::lemma_unique(v.ram_bytes, x1, bytes@, q1);
                            lemma_prefix_concat(v.net_weight.packed(), v.cpu_weight.packed(), bytes@, q2);
                        }
                    }
                }
                return Err(e);
            },
        };
        let ghost q3: int = p as int;
        let x3 = match <i64 as Packed>::read(bytes, &mut p) {
            Ok(x) => x,
            Err(e) => {
                proof {
                    assert forall|v: SetalimitsArgs| !prefix_at(#[trigger] v.packed(), bytes@, *old(pos) as int) by {
                        if prefix_at(v.packed(), bytes@, *old(pos) as int) {
                            lemma_prefix_concat(v.account.packed(), v.ram_bytes.packed() + (v.net_weight.packed() + v.cpu_weight.packed()), bytes@, q0);
                            <Name as Packed>::lemma_unique(v.account, x0, bytes@, q0);
                            lemma_prefix_concat(v.ram_bytes.packed(), v.net_weight.packed() + v.cpu_weight.packed(), bytes@, q1);
                            <i64 as Packed>::lemma_unique(v.ram_bytes, x1, bytes@, q1);
                            lemma_prefix_concat(v.net_weight.packed(), v.cpu_weight.packed(), bytes@, q2);
                            <i64 as Packed>::lemma_unique(v.net_weight, x2, bytes@, q2);
                        }
                    }
                }
                return Err(e);
            },
        };
        let v = SetalimitsArgs { account: x0, ram_bytes: x1, net_weight: x2, cpu_weight: x3 };
        proof {
            lemma_prefix_concat(v.net_weight.packed(), v.cpu_weight.packed(), bytes@, q2);
            lemma_prefix_concat(v.ram_bytes.packed(), v.net_weight.packed() + v.cpu_weight.packed(), bytes@, q1);
            lemma_prefix_concat(v.account.packed(), v.ram_bytes.packed() + (v.net_weight.packed() + v.cpu_weight.packed()), bytes@, q0);
        }
        *pos = p;
        Ok(v)
    }

    fn write(&self, bytes: &mut [u8], pos: &mut usize) -> (r: Result<(), WriteError>) {
        let mut p = *pos;
        let ghost start = *pos as int;
        let ghost buf0 = bytes@;
        match self.account.write(bytes, &mut p) {
            Err(e) => {
                proof {
                    assert(self.packed() =~= self.account.packed() + (self.ram_bytes.packed() + (self.net_weight.packed() + self.cpu_weight.packed())));
                }
                return Err(e);
            },
            Ok(()) => {},
        }
        match self.ram_bytes.write(bytes, &mut p) {
            Err(e) => {
                proof {
                    assert(self.packed() =~= self.account.packed() + self.ram_bytes.packed() + (self.net_weight.packed() + self.cpu_weight.packed()));
                }
                return Err(e);
            },
            Ok(()) => {},
        }
        proof {
            lemma_written_concat(buf0, start, self.account.packed(), self.ram_bytes.packed());
        }
        match self.net_weight.write(bytes, &mut p) {
            Err(e) => {
                proof {
                    assert(self.packed() =~= self.account.packed() + self.ram_bytes.packed() + self.net_weight.packed() + (self.cpu_weight.packed()));
                }
                return Err(e);
            },
            Ok(()) => {},
        }
        proof {
            lemma_written_concat(buf0, start, self.account.packed() + self.ram_bytes.packed(), self.net_weight.packed());
        }
        match self.cpu_weight.write(bytes, &mut p) {
            Err(e) => {
                proof {
                    assert(self.packed() =~= self.account.packed() + self.ram_bytes.packed() + self.net_weight.packed() + self.cpu_weight.packed());
                }
                return Err(e);
            },
            Ok(()) => {},
        }
        proof {
            lemma_written_concat(buf0, start, self.account.packed() + self.ram_bytes.packed() + self.net_weight.packed(), self.cpu_weight.packed());
        }
        proof {
            assert(self.account.packed() + self.ram_bytes.packed() + self.net_weight.packed() + self.cpu_weight.packed() =~= self.packed());
        }
        *pos = p;
        Ok(())
    }
}

impl Packed for ReqauthArgs {
    open spec fn packed(&self) -> Seq<u8> {
        self.from.packed()
    }

    proof fn lemma_unique(a: Self, b: Self, bytes: Seq<u8>, pos: int) {
        let ghost mut q = pos;
        <Name as Packed>::lemma_unique(a.from, b.from, bytes, q);
    }

    open spec fn same_value(&self, other: &Self) -> bool {
        &&& self.from.same_value(&other.from)
    }

    proof fn lemma_injective(a: Self, b: Self) {
        let bytes = a.packed();
        let pos: int = 0;
        assert(bytes.subrange(0, bytes.len() as int) =~= bytes);
        let ghost mut q = pos;
        <Name as Packed>::lemma_unique(a.from, b.from, bytes, q);
        <Name as Packed>::lemma_injective(a.from, b.from);
    }

    fn num_bytes(&self) -> (n: usize) {
        self.from.num_bytes()
    }

    fn read(bytes: &[u8], pos: &mut usize) -> (r: Result<Self, ReadError>) {
        let mut p = *pos;
        let ghost q0: int = p as int;
        let x0 = match <Name as Packed>::read(bytes, &mut p) {
            Ok(x) => x,
            Err(e) => {
                proof {
                    assert forall|v: ReqauthArgs| !prefix_at(#[trigger] v.packed(), bytes@, *old(pos) as int) by {
                        if prefix_at(v.packed(), bytes@, *old(pos) as int) {
                        }
                    }
                }
                return Err(e);
            },
        };
        let v = ReqauthArgs { from: x0 };
        proof {
        }
        *pos = p;
        Ok(v)
    }

    fn write(&self, bytes: &mut [u8], pos: &mut usize) -> (r: Result<(), WriteError>) {
        let mut p = *pos;
        let ghost start = *pos as int;
        let ghost buf0 = bytes@;
        match self.from.write(bytes, &mut p) {
            Err(e) => {
                return Err(e);
            },
            Ok(()) => {},
        }
        *pos = p;
        Ok(())
    }
}

impl Packed for UpdateauthArgs {
    open spec fn packed(&self) -> Seq<u8> {
        self.account.packed() + (self.permission.packed() + (self.parent.packed() + self.auth.packed()))
    }

    proof fn lemma_unique(a: Self, b: Self, bytes: Seq<u8>, pos: int) {
        let ghost mut q = pos;
        lemma_prefix_concat(a.account.packed(), a.permission.packed() + (a.parent.packed() + a.auth.packed()), bytes, q);
        lemma_prefix_concat(b.account.packed(), b.permission.packed() + (b.parent.packed() + b.auth.packed()), bytes, q);
        <Name as Packed>::lemma_unique(a.account, b.account, bytes, q);
        q = q + a.account.packed().len();
        lemma_prefix_concat(a.permission.packed(), a.parent.packed() + a.auth.packed(), bytes, q);
        lemma_prefix_concat(b.permission.packed(), b.parent.packed() + b.auth.packed(), bytes, q);
        <Name as Packed>::lemma_unique(a.permission, b.permission, bytes, q);
        q = q + a.permission.packed().len();
        lemma_prefix_concat(a.parent.packed(), a.auth.packed(), bytes, q);
        lemma_prefix_concat(b.parent.packed(), b.auth.packed(), bytes, q);
        <Name as Packed>::lemma_unique(a.parent, b.parent, bytes, q);
        q = q + a.parent.packed().len();
        <Authority as Packed>::lemma_unique(a.auth, b.auth, bytes, q);
    }

    open spec fn same_value(&self, other: &Self) -> bool {
        &&& self.account.same_value(&other.account)
        &&& self.permission.same_value(&other.permission)
        &&& self.parent.same_value(&other.parent)
        &&& self.auth.same_value(&other.auth)
    }

    proof fn lemma_injective(a: Self, b: Self) {
        let bytes = a.packed();
        let pos: int = 0;
        assert(bytes.subrange(0, bytes.len() as int) =~= bytes);
        let ghost mut q = pos;
        lemma_prefix_concat(a.account.packed(), a.permission.packed() + (a.parent.packed() + a.auth.packed()), bytes, q);
        lemma_prefix_concat(b.account.packed(), b.permission.packed() + (b.parent.packed() + b.auth.packed()), bytes, q);
        <Name as Packed>::lemma_unique(a.account, b.account, bytes, q);
        <Name as Packed>::lemma_injective(a.account, b.account);
        q = q + a.account.packed().len();
        lemma_prefix_concat(a.permission.packed(), a.parent.packed() + a.auth.packed(), bytes, q);
        lemma_prefix_concat(b.permission.packed(), b.parent.packed() + b.auth.packed(), bytes, q);
        <Name as Packed>::lemma_unique(a.permission, b.permission, bytes, q);
        <Name as Packed>::lemma_injective(a.permission, b.permission);
        q = q + a.permission.packed().len();
        lemma_prefix_concat(a.parent.packed(), a.auth.packed(), bytes, q);
        lemma_prefix_concat(b.parent.packed(), b.auth.packed(), bytes, q);
        <Name as Packed>::lemma_unique(a.parent, b.parent, bytes, q);
        <Name as Packed>::lemma_injective(a.parent, b.parent);
        q = q + a.parent.packed().len();
        <Authority as Packed>::lemma_unique(a.auth, b.auth, bytes, q);
        <Authority as Packed>::lemma_injective(a.auth, b.auth);
    }

    fn num_bytes(&self) -> (n: usize) {
        self.account.num_bytes() + self.permission.num_bytes() + self.parent.num_bytes() + self.auth.num_bytes()
    }

    fn read(bytes: &[u8], pos: &mut usize) -> (r: Result<Self, ReadError>) {
        let mut p = *pos;
        let ghost q0: int = p as int;
        let x0 = match <Name as Packed>::read(bytes, &mut p) {
            Ok(x) => x,
            Err(e) => {
                proof {
                    assert forall|v: UpdateauthArgs| !prefix_at(#[trigger] v.packed(), bytes@, *old(pos) as int) by {
                        if prefix_at(v.packed(), bytes@, *old(pos) as int) {
                            lemma_prefix_concat(v.account.packed(), v.permission.packed() + (v.parent.packed() + v.auth.packed()), bytes@, q0);
                        }
                    }
                }
                return Err(e);
            },
        };
        let ghost q1: int = p as int;
        let x1 = match <Name as Packed>::read(bytes, &mut p) {
            Ok(x) => x,
            Err(e) => {
                proof {
                    assert forall|v: UpdateauthArgs| !prefix_at(#[trigger] v.packed(), bytes@, *old(pos) as int) by {
                        if prefix_at(v.packed(), bytes@, *old(pos) as int) {
                            lemma_prefix_concat(v.account.packed(), v.permission.packed() + (v.parent.packed() + v.auth.packed()), bytes@, q0);
                            <Name as Packed>::lemma_unique(v.account, x0, bytes@, q0);
                            lemma_prefix_concat(v.permission.packed(), v.parent.packed() + v.auth.packed(), bytes@, q1);
                        }
                    }
                }
                return Err(e);
            },
        };
        let ghost q2: int = p as int;
        let x2 = match <Name as Packed>::read(bytes, &mut p) {
            Ok(x) => x,
            Err(e) => {
                proof {
                    assert forall|v: UpdateauthArgs| !prefix_at(#[trigger] v.packed(), bytes@, *old(pos) as int) by {
                        if prefix_at(v.packed(), bytes@, *old(pos) as int) {
                            lemma_prefix_concat(v.account.packed(), v.permission.packed() + (v.parent.packed() + v.auth.packed()), bytes@, q0);
                            <Name as Packed>::lemma_unique(v.account, x0, bytes@, q0);
                            lemma_prefix_concat(v.permission.packed(), v.parent.packed() + v.auth.packed(), bytes@, q1);
                            <Name as Packed>::lemma_unique(v.permission, x1, bytes@, q1);
                            lemma_prefix_concat(v.parent.packed(), v.auth.packed(), bytes@, q2);
                        }
                    }
                }
                return Err(e);
            },
        };
        let ghost q3: int = p as int;
        let x3 = match <Authority as Packed>::read(bytes, &mut p) {
            Ok(x) => x,
            Err(e) => {
                proof {
                    assert forall|v: UpdateauthArgs| !prefix_at(#[trigger] v.packed(), bytes@, *old(pos) as int) by {
                        if prefix_at(v.packed(), bytes@, *old(pos) as int) {
                            lemma_prefix_concat(v.account.packed(), v.permission.packed() + (v.parent.packed() + v.auth.packed()), bytes@, q0);
                            <Name as Packed>::lemma_unique(v.account, x0, bytes@, q0);
                            lemma_prefix_concat(v.permission.packed(), v.parent.packed() + v.auth.packed(), bytes@, q1);
                            <Name as Packed>::lemma_unique(v.permission, x1, bytes@, q1);
                            lemma_prefix_concat(v.parent.packed(), v.auth.packed(), bytes@, q2);
                            <Name as Packed>::lemma_unique(v.parent, x2, bytes@, q2);
                        }
                    }
                }
                return Err(e);
            },
        };
        let v = UpdateauthArgs { account: x0, permission: x1, parent: x2, auth: x3 };
        proof {
            lemma_prefix_concat(v.parent.packed(), v.auth.packed(), bytes@, q2);
            lemma_prefix_concat(v.permission.packed(), v.parent.packed() + v.auth.packed(), bytes@, q1);
            lemma_prefix_concat(v.account.packed(), v.permission.packed() + (v.parent.packed() + v.auth.packed()), bytes@, q0);
        }
        *pos = p;
        Ok(v)
    }

    fn write(&self, bytes: &mut [u8], pos: &mut usize) -> (r: Result<(), WriteError>) {
        let mut p = *pos;
        let ghost start = *pos as int;
        let ghost buf0 = bytes@;
        match self.account.write(bytes, &mut p) {
            Err(e) => {
                proof {
                    assert(self.packed() =~= self.account.packed() + (self.permission.packed() + (self.parent.packed() + self.auth.packed())));
                }
                return Err(e);
            },
            Ok(()) => {},
        }
        match self.permission.write(bytes, &mut p) {
            Err(e) => {
                proof {
                    assert(self.packed() =~= self.account.packed() + self.permission.packed() + (self.parent.packed() + self.auth.packed()));
                }
                return Err(e);
            },
            Ok(()) => {},
        }
        proof {
            lemma_written_concat(buf0, start, self.account.packed(), self.permission.packed());
        }
        match self.parent.write(bytes, &mut p) {
            Err(e) => {
                proof {
                    assert(self.packed() =~= self.account.packed() + self.permission.packed() + self.parent.packed() + (self.auth.packed()));
                }
                return Err(e);
            },
            Ok(()) => {},
        }
        proof {
            lemma_written_concat(buf0, start, self.account.packed() + self.permission.packed(), self.parent.packed());
        }
        match self.auth.write(bytes, &mut p) {
            Err(e) => {
                proof {
                    assert(self.packed() =~= self.account.packed() + self.permission.packed() + self.parent.packed() + self.auth.packed());
                }
                return Err(e);
            },
            Ok(()) => {},
        }
        proof {
            lemma_written_concat(buf0, start, self.account.packed() + self.permission.packed() + self.parent.packed(), self.auth.packed());
        }
        proof {
            assert(self.account.packed() + self.permission.packed() + self.parent.packed() + self.auth.packed() =~= self.packed());
        }
        *pos = p;
        Ok(())
    }
}

impl Packed for DeleteauthArgs {
    open spec fn packed(&self) -> Seq<u8> {
        self.account.packed() + self.permission.packed()
    }

    proof fn lemma_unique(a: Self, b: Self, bytes: Seq<u8>, pos: int) {
        let ghost mut q = pos;
        lemma_prefix_concat(a.account.packed(), a.permission.packed(), bytes, q);
        lemma_prefix_concat(b.account.packed(), b.permission.packed(), bytes, q);
        <Name as Packed>::lemma_unique(a.account, b.account, bytes, q);
        q = q + a.account.packed().len();
        <Name as Packed>::lemma_unique(a.permission, b.permission, bytes, q);
    }

    open spec fn same_value(&self, other: &Self) -> bool {
        &&& self.account.same_value(&other.account)
        &&& self.permission.same_value(&other.permission)
    }

    proof fn lemma_injective(a: Self, b: Self) {
        let bytes = a.packed();
        let pos: int = 0;
        assert(bytes.subrange(0, bytes.len() as int) =~= bytes);
        let ghost mut q = pos;
        lemma_prefix_concat(a.account.packed(), a.permission.packed(), bytes, q);
        lemma_prefix_concat(b.account.packed(), b.permission.packed(), bytes, q);
        <Name as Packed>::lemma_unique(a.account, b.account, bytes, q);
        <Name as Packed>::lemma_injective(a.account, b.account);
        q = q + a.account.packed().len();
        <Name as Packed>::lemma_unique(a.permission, b.permission, bytes, q);
        <Name as Packed>::lemma_injective(a.permission, b.permission);
    }

    fn num_bytes(&self) -> (n: usize) {
        self.account.num_bytes() + self.permission.num_bytes()
    }

    fn read(bytes: &[u8], pos: &mut usize) -> (r: Result<Self, ReadError>) {
        let mut p = *pos;
        let ghost q0: int = p as int;
        let x0 = match <Name as Packed>::read(bytes, &mut p) {
            Ok(x) => x,
            Err(e) => {
                proof {
                    assert forall|v: DeleteauthArgs| !prefix_at(#[trigger] v.packed(), bytes@, *old(pos) as int) by {
                        if prefix_at(v.packed(), bytes@, *old(pos) as int) {
                            lemma_prefix_concat(v.account.packed(), v.permission.packed(), bytes@, q0);
                        }
                    }
                }
                return Err(e);
            },
        };
        let ghost q1: int = p as int;
        let x1 = match <Name as Packed>::read(bytes, &mut p) {
            Ok(x) => x,
            Err(e) => {
                proof {
                    assert forall|v: DeleteauthArgs| !prefix_at(#[trigger] v.packed(), bytes@, *old(pos) as int) by {
                        if prefix_at(v.packed(), bytes@, *old(pos) as int) {
                            lemma_prefix_concat(v.account.packed(), v.permission.packed(), bytes@, q0);
                            <Name as Packed>::lemma_unique(v.account, x0, bytes@, q0);
                        }
                    }
                }
                return Err(e);
            },
        };
        let v = DeleteauthArgs { account: x0, permission: x1 };
        proof {
            lemma_prefix_concat(v.account.packed(), v.permission.packed(), bytes@, q0);
        }
        *pos = p;
        Ok(v)
    }

    fn write(&self, bytes: &mut [u8], pos: &mut usize) -> (r: Result<(), WriteError>) {
        let mut p = *pos;
        let ghost start = *pos as int;
        let ghost buf0 = bytes@;
        match self.account.write(bytes, &mut p) {
            Err(e) => {
                proof {
                    assert(self.packed() =~= self.account.packed() + (self.permission.packed()));
                }
                return Err(e);
            },
            Ok(()) => {},
        }
        match self.permission.write(bytes, &mut p) {
            Err(e) => {
                proof {
                    assert(self.packed() =~= self.account.packed() + self.permission.packed());
                }
                return Err(e);
            },
            Ok(()) => {},
        }
        proof {
            lemma_written_concat(buf0, start, self.account.packed(), self.permission.packed());
        }
        proof {
            assert(self.account.packed() + self.permission.packed() =~= self.packed());
        }
        *pos = p;
        Ok(())
    }
}

impl Packed for LinkauthArgs {
    open spec fn packed(&self) -> Seq<u8> {
        self.account.packed() + (self.code.packed() + (self.message_type.packed() + self.requirement.packed()))
    }

    proof fn lemma_unique(a: Self, b: Self, bytes: Seq<u8>, pos: int) {
        let ghost mut q = pos;
        lemma_prefix_concat(a.account.packed(), a.code.packed() + (a.message_type.packed() + a.requirement.packed()), bytes, q);
        lemma_prefix_concat(b.account.packed(), b.code.packed() + (b.message_type.packed() + b.requirement.packed()), bytes, q);
        <Name as Packed>::lemma_unique(a.account, b.account, bytes, q);
        q = q + a.account.packed().len();
        lemma_prefix_concat(a.code.packed(), a.message_type.packed() + a.requirement.packed(), bytes, q);
        lemma_prefix_concat(b.code.packed(), b.message_type.packed() + b.requirement.packed(), bytes, q);
        <Name as Packed>::lemma_unique(a.code, b.code, bytes, q);
        q = q + a.code.packed().len();
        lemma_prefix_concat(a.message_type.packed(), a.requirement.packed(), bytes, q);
        lemma_prefix_concat(b.message_type.packed(), b.requirement.packed(), bytes, q);
        <Name as Packed>::lemma_unique(a.message_type, b.message_type, bytes, q);
        q = q + a.message_type.packed().len();
        <Name as Packed>::lemma_unique(a.requirement, b.requirement, bytes, q);
    }

    open spec fn same_value(&self, other: &Self) -> bool {
        &&& self.account.same_value(&other.account)
        &&& self.code.same_value(&other.code)
        &&& self.message_type.same_value(&other.message_type)
        &&& self.requirement.same_value(&other.requirement)
    }

    proof fn lemma_injective(a: Self, b: Self) {
        let bytes = a.packed();
        let pos: int = 0;
        assert(bytes.subrange(0, bytes.len() as int) =~= bytes);
        let ghost mut q = pos;
        lemma_prefix_concat(a.account.packed(), a.code.packed() + (a.message_type.packed() + a.requirement.packed()), bytes, q);
        lemma_prefix_concat(b.account.packed(), b.code.packed() + (b.message_type.packed() + b.requirement.packed()), bytes, q);
        <Name as Packed>::lemma_unique(a.account, b.account, bytes, q);
        <Name as Packed>::lemma_injective(a.account, b.account);
        q = q + a.account.packed().len();
        lemma_prefix_concat(a.code.packed(), a.message_type.packed() + a.requirement.packed(), bytes, q);
        lemma_prefix_concat(b.code.packed(), b.message_type.packed() + b.requirement.packed(), bytes, q);
        <Name as Packed>::lemma_unique(a.code, b.code, bytes, q);
        <Name as Packed>::lemma_injective(a.code, b.code);
        q = q + a.code.packed().len();
        lemma_prefix_concat(a.message_type.packed(), a.requirement.packed(), bytes, q);
        lemma_prefix_concat(b.message_type.packed(), b.requirement.packed(), bytes, q);
        <Name as Packed>::lemma_unique(a.message_type, b.message_type, bytes, q);
        <Name as Packed>::lemma_injective(a.message_type, b.message_type);
        q = q + a.message_type.packed().len();
        <Name as Packed>::lemma_unique(a.requirement, b.requirement, bytes, q);
        <Name as Packed>::lemma_injective(a.requirement, b.requirement);
    }

    fn num_bytes(&self) -> (n: usize) {
        self.account.num_bytes() + self.code.num_bytes() + self.message_type.num_bytes() + self.requirement.num_bytes()
    }

    fn read(bytes: &[u8], pos: &mut usize) -> (r: Result<Self, ReadError>) {
        let mut p = *pos;
        let ghost q0: int = p as int;
        let x0 = match <Name as Packed>::read(bytes, &mut p) {
            Ok(x) => x,
            Err(e) => {
                proof {
                    assert forall|v: LinkauthArgs| !prefix_at(#[trigger] v.packed(), bytes@, *old(pos) as int) by {
                        if prefix_at(v.packed(), bytes@, *old(pos) as int) {
                            lemma_prefix_concat(v.account.packed(), v.code.packed() + (v.message_type.packed() + v.requirement.packed()), bytes@, q0);
                        }
                    }
                }
                return Err(e);
            },
        };
        let ghost q1: int = p as int;
        let x1 = match <Name as Packed>::read(bytes, &mut p) {
            Ok(x) => x,
            Err(e) => {
                proof {
                    assert forall|v: LinkauthArgs| !prefix_at(#[trigger] v.packed(), bytes@, *old(pos) as int) by {
                        if prefix_at(v.packed(), bytes@, *old(pos) as int) {
                            lemma_prefix_concat(v.account.packed(), v.code.packed() + (v.message_type.packed() + v.requirement.packed()), bytes@, q0);
                            <Name as Packed>::lemma_unique(v.account, x0, bytes@, q0);
                            lemma_prefix_concat(v.code.packed(), v.message_type.packed() + v.requirement.packed(), bytes@, q1);
                        }
                    }
                }
                return Err(e);
            },
        };
        let ghost q2: int = p as int;
        let x2 = match <Name as Packed>::read(bytes, &mut p) {
            Ok(x) => x,
            Err(e) => {
                proof {
                    assert forall|v: LinkauthArgs| !prefix_at(#[trigger] v.packed(), bytes@, *old(pos) as int) by {
                        if prefix_at(v.packed(), bytes@, *old(pos) as int) {
                            lemma_prefix_concat(v.account.packed(), v.code.packed() + (v.message_type.packed() + v.requirement.packed()), bytes@, q0);
                            <Name as Packed>::lemma_unique(v.account, x0, bytes@, q0);
                            lemma_prefix_concat(v.code.packed(), v.message_type.packed() + v.requirement.packed(), bytes@, q1);
                            <Name as Packed>::lemma_unique(v.code, x1, bytes@, q1);
                            lemma_prefix_concat(v.message_type.packed(), v.requirement.packed(), bytes@, q2);
                        }
                    }
                }
                return Err(e);
            },
        };
        let ghost q3: int = p as int;
        let x3 = match <Name as Packed>::read(bytes, &mut p) {
            Ok(x) => x,
            Err(e) => {
                proof {
                    assert forall|v: LinkauthArgs| !prefix_at(#[trigger] v.packed(), bytes@, *old(pos) as int) by {
                        if prefix_at(v.packed(), bytes@, *old(pos) as int) {
                            lemma_prefix_concat(v.account.packed(), v.code.packed() + (v.message_type.packed() + v.requirement.packed()), bytes@, q0);
                            <Name as Packed>::lemma_unique(v.account, x0, bytes@, q0);
                            lemma_prefix_concat(v.code.packed(), v.message_type.packed() + v.requirement.packed(), bytes@, q1);
                            <Name as Packed>::lemma_unique(v.code, x1, bytes@, q1);
                            lemma_prefix_concat(v.message_type.packed(), v.requirement.packed(), bytes@, q2);
                            <Name as Packed>::lemma_unique(v.message_type, x2, bytes@, q2);
                        }
                    }
                }
                return Err(e);
            },
        };
        let v = LinkauthArgs { account: x0, code: x1, message_type: x2, requirement: x3 };
        proof {
            lemma_prefix_concat(v.message_type.packed(), v.requirement.packed(), bytes@, q2);
            lemma_prefix_concat(v.code.packed(), v.message_type.packed() + v.requirement.packed(), bytes@, q1);
            lemma_prefix_concat(v.account.packed(), v.code.packed() + (v.message_type.packed() + v.requirement.packed()), bytes@, q0);
        }
        *pos = p;
        Ok(v)
    }

    fn write(&self, bytes: &mut [u8], pos: &mut usize) -> (r: Result<(), WriteError>) {
        let mut p = *pos;
        let ghost start = *pos as int;
        let ghost buf0 = bytes@;
        match self.account.write(bytes, &mut p) {
            Err(e) => {
                proof {
                    assert(self.packed() =~= self.account.packed() + (self.code.packed() + (self.message_type.packed() + self.requirement.packed())));
                }
                return Err(e);
            },
            Ok(()) => {},
        }
        match self.code.write(bytes, &mut p) {
            Err(e) => {
                proof {
                    assert(self.packed() =~= self.account.packed() + self.code.packed() + (self.message_type.packed() + self.requirement.packed()));
                }
                return Err(e);
            },
            Ok(()) => {},
        }
        proof {
            lemma_written_concat(buf0, start, self.account.packed(), self.code.packed());
        }
        match self.message_type.write(bytes, &mut p) {
            Err(e) => {
                proof {
                    assert(self.packed() =~= self.account.packed() + self.code.packed() + self.message_type.packed() + (self.requirement.packed()));
                }
                return Err(e);
            },
            Ok(()) => {},
        }
        proof {
            lemma_written_concat(buf0, start, self.account.packed() + self.code.packed(), self.message_type.packed());
        }
        match self.requirement.write(bytes, &mut p) {
            Err(e) => {
                proof {
                    assert(self.packed() =~= self.account.packed() + self.code.packed() + self.message_type.packed() + self.requirement.packed());
                }
                return Err(e);
            },
            Ok(()) => {},
        }
        proof {
            lemma_written_concat(buf0, start, self.account.packed() + self.code.packed() + self.message_type.packed(), self.requirement.packed());
        }
        proof {
            assert(self.account.packed() + self.code.packed() + self.message_type.packed() + self.requirement.packed() =~= self.packed());
        }
        *pos = p;
        Ok(())
    }
}

impl Packed for UnlinkauthArgs {
    open spec fn packed(&self) -> Seq<u8> {
        self.account.packed() + (self.code.packed() + self.message_type.packed())
    }

    proof fn lemma_unique(a: Self, b: Self, bytes: Seq<u8>, pos: int) {
        let ghost mut q = pos;
        lemma_prefix_concat(a.account.packed(), a.code.packed() + a.message_type.packed(), bytes, q);
        lemma_prefix_concat(b.account.packed(), b.code.packed() + b.message_type.packed(), bytes, q);
        <Name as Packed>::lemma_unique(a.account, b.account, bytes, q);
        q = q + a.account.packed().len();
        lemma_prefix_concat(a.code.packed(), a.message_type.packed(), bytes, q);
        lemma_prefix_concat(b.code.packed(), b.message_type.packed(), bytes, q);
        <Name as Packed>::lemma_unique(a.code, b.code, bytes, q);
        q = q + a.code.packed().len();
        <Name as Packed>::lemma_unique(a.message_type, b.message_type, bytes, q);
    }

    open spec fn same_value(&self, other: &Self) -> bool {
        &&& self.account.same_value(&other.account)
        &&& self.code.same_value(&other.code)
        &&& self.message_type.same_value(&other.message_type)
    }

    proof fn lemma_injective(a: Self, b: Self) {
        let bytes = a.packed();
        let pos: int = 0;
        assert(bytes.subrange(0, bytes.len() as int) =~= bytes);
        let ghost mut q = pos;
        lemma_prefix_concat(a.account.packed(), a.code.packed() + a.message_type.packed(), bytes, q);
        lemma_prefix_concat(b.account.packed(), b.code.packed() + b.message_type.packed(), bytes, q);
        <Name as Packed>::lemma_unique(a.account, b.account, bytes, q);
        <Name as Packed>::lemma_injective(a.account, b.account);
        q = q + a.account.packed().len();
        lemma_prefix_concat(a.code.packed(), a.message_type.packed(), bytes, q);
        lemma_prefix_concat(b.code.packed(), b.message_type.packed(), bytes, q);
        <Name as Packed>::lemma_unique(a.code, b.code, bytes, q);
        <Name as Packed>::lemma_injective(a.code, b.code);
        q = q + a.code.packed().len();
        <Name as Packed>::lemma_unique(a.message_type, b.message_type, bytes, q);
        <Name as Packed>::lemma_injective(a.message_type, b.message_type);
    }

    fn num_bytes(&self) -> (n: usize) {
        self.account.num_bytes() + self.code.num_bytes() + self.message_type.num_bytes()
    }

    fn read(bytes: &[u8], pos: &mut usize) -> (r: Result<Self, ReadError>) {
        let mut p = *pos;
        let ghost q0: int = p as int;
        let x0 = match <Name as Packed>::read(bytes, &mut p) {
            Ok(x) => x,
            Err(e) => {
                proof {
                    assert forall|v: UnlinkauthArgs| !prefix_at(#[trigger] v.packed(), bytes@, *old(pos) as int) by {
                        if prefix_at(v.packed(), bytes@, *old(pos) as int) {
                            lemma_prefix_concat(v.account.packed(), v.code.packed() + v.message_type.packed(), bytes@, q0);
                        }
                    }
                }
                return Err(e);
            },
        };
        let ghost q1: int = p as int;
        let x1 = match <Name as Packed>::read(bytes, &mut p) {
            Ok(x) => x,
            Err(e) => {
                proof {
                    assert forall|v: UnlinkauthArgs| !prefix_at(#[trigger] v.packed(), bytes@, *old(pos) as int) by {
                        if prefix_at(v.packed(), bytes@, *old(pos) as int) {
                            lemma_prefix_concat(v.account.packed(), v.code.packed() + v.message_type.packed(), bytes@, q0);
                            <Name as Packed>::lemma_unique(v.account, x0, bytes@, q0);
                            lemma_prefix_concat(v.code.packed(), v.message_type.packed(), bytes@, q1);
                        }
                    }
                }
                return Err(e);
            },
        };
        let ghost q2: int = p as int;
        let x2 = match <Name as Packed>::read(bytes, &mut p) {
            Ok(x) => x,
            Err(e) => {
                proof {
                    assert forall|v: UnlinkauthArgs| !prefix_at(#[trigger] v.packed(), bytes@, *old(pos) as int) by {
                        if prefix_at(v.packed(), bytes@, *old(pos) as int) {
                            lemma_prefix_concat(v.account.packed(), v.code.packed() + v.message_type.packed(), bytes@, q0);
                            <Name as Packed>::lemma_unique(v.account, x0, bytes@, q0);
                            lemma_prefix_concat(v.code.packed(), v.message_type.packed(), bytes@, q1);
                            <Name as Packed>::lemma_unique(v.code, x1, bytes@, q1);
                        }
                    }
                }
                return Err(e);
            },
        };
        let v = UnlinkauthArgs { account: x0, code: x1, message_type: x2 };
        proof {
            lemma_prefix_concat(v.code.packed(), v.message_type.packed(), bytes@, q1);
            lemma_prefix_concat(v.account.packed(), v.code.packed() + v.message_type.packed(), bytes@, q0);
        }
        *pos = p;
        Ok(v)
    }

    fn write(&self, bytes: &mut [u8], pos: &mut usize) -> (r: Result<(), WriteError>) {
        let mut p = *pos;
        let ghost start = *pos as int;
        let ghost buf0 = bytes@;
        match self.account.write(bytes, &mut p) {
            Err(e) => {
                proof {
                    assert(self.packed() =~= self.account.packed() + (self.code.packed() + self.message_type.packed()));
                }
                return Err(e);
            },
            Ok(()) => {},
        }
        match self.code.write(bytes, &mut p) {
            Err(e) => {
                proof {
                    assert(self.packed() =~= self.account.packed() + self.code.packed() + (self.message_type.packed()));
                }
                return Err(e);
            },
            Ok(()) => {},
        }
        proof {
            lemma_written_concat(buf0, start, self.account.packed(), self.code.packed());
        }
        match self.message_type.write(bytes, &mut p) {
            Err(e) => {
                proof {
                    assert(self.packed() =~= self.account.packed() + self.code.packed() + self.message_type.packed());
                }
                return Err(e);
            },
            Ok(()) => {},
        }
        proof {
            lemma_written_concat(buf0, start, self.account.packed() + self.code.packed(), self.message_type.packed());
        }
        proof {
            assert(self.account.packed() + self.code.packed() + self.message_type.packed() =~= self.packed());
        }
        *pos = p;
        Ok(())
    }
}

/// `SetprivArgs` is encoded as its fields, one after the other, in the order
/// `account`, `is_priv`.
pub proof fn lemma_setpriv_args_layout(a: SetprivArgs)
    ensures
        a.packed() == a.account.packed() + a.is_priv.packed(),
{
    assert(a.packed() =~= a.account.packed() + a.is_priv.packed());
}

/// `NewaccountArgs` is encoded as its fields, one after the other, in the order
/// `creator`, `name`, `owner`, `active`.
pub proof fn lemma_newaccount_args_layout(a: NewaccountArgs)
    ensures
        a.packed() == a.creator.packed() + a.name.packed() + a.owner.packed() + a.active.packed(),
{
    assert(a.packed() =~= a.creator.packed() + a.name.packed() + a.owner.packed() + a.active.packed());
}

/// `SetabiArgs` is encoded as its fields, one after the other, in the order
/// `account`, `abi`.
pub proof fn lemma_setabi_args_layout(a: SetabiArgs)
    ensures
        a.packed() == a.account.packed() + a.abi.packed(),
{
    assert(a.packed() =~= a.account.packed() + a.abi.packed());
}

/// `SetcodeArgs` is encoded as its fields, one after the other, in the order
/// `account`, `vmtype`, `vmversion`, `code`.
pub proof fn lemma_setcode_args_layout(a: SetcodeArgs)
    ensures
        a.packed() == a.account.packed() + a.vmtype.packed() + a.vmversion.packed() + a.code.packed(),
{
    assert(a.packed() =~= a.account.packed() + a.vmtype.packed() + a.vmversion.packed() + a.code.packed());
}

/// `InitArgs` is encoded as its fields, one after the other, in the order
/// `version`, `core`.
pub proof fn lemma_init_args_layout(a: InitArgs)
    ensures
        a.packed() == a.version.packed() + a.core.packed(),
{
    assert(a.packed() =~= a.version.packed() + a.core.packed());
}

/// `BuyrambsysArgs` is encoded as its fields, one after the other, in the order
/// `payer`, `receiver`, `bytes`.
pub proof fn lemma_buyrambsys_args_layout(a: BuyrambsysArgs)
    ensures
        a.packed() == a.payer.packed() + a.receiver.packed() + a.bytes.packed(),
{
    assert(a.packed() =~= a.payer.packed() + a.receiver.packed() + a.bytes.packed());
}

/// `BuyramsysArgs` is encoded as its fields, one after the other, in the order
/// `payer`, `receiver`, `quant`.
pub proof fn lemma_buyramsys_args_layout(a: BuyramsysArgs)
    ensures
        a.packed() == a.payer.packed() + a.receiver.packed() + a.quant.packed(),
{
    assert(a.packed() =~= a.payer.packed() + a.receiver.packed() + a.quant.packed());
}

/// `DelegatebwArgs` is encoded as its fields, one after the other, in the order
/// `from`, `receiver`, `stake_net_quantity`, `stake_cpu_quantity`, `transfer`.
pub proof fn lemma_delegatebw_args_layout(a: DelegatebwArgs)
    ensures
        a.packed() == a.from.packed() + a.receiver.packed() + a.stake_net_quantity.packed() + a.stake_cpu_quantity.packed() + a.transfer.packed(),
{
    assert(a.packed() =~= a.from.packed() + a.receiver.packed() + a.stake_net_quantity.packed() + a.stake_cpu_quantity.packed() + a.transfer.packed());
}

/// `UndelegatebwArgs` is encoded as its fields, one after the other, in the order
/// `from`, `receiver`, `unstake_net_quantity`, `unstake_cpu_quantity`.
pub proof fn lemma_undelegatebw_args_layout(a: UndelegatebwArgs)
    ensures
        a.packed() == a.from.packed() + a.receiver.packed() + a.unstake_net_quantity.packed() + a.unstake_cpu_quantity.packed(),
{
    assert(a.packed() =~= a.from.packed() + a.receiver.packed() + a.unstake_net_quantity.packed() + a.unstake_cpu_quantity.packed());
}

/// `RegproducerArgs` is encoded as its fields, one after the other, in the order
/// `producer`, `producer_key`, `url`, `location`.
pub proof fn lemma_regproducer_args_layout(a: RegproducerArgs)
    ensures
        a.packed() == a.producer.packed() + a.producer_key.packed() + a.url.packed() + a.location.packed(),
{
    assert(a.packed() =~= a.producer.packed() + a.producer_key.packed() + a.url.packed() + a.location.packed());
}

/// `Regproducer2Args` is encoded as its fields, one after the other, in the order
/// `producer`, `producer_authority`, `url`, `location`.
pub proof fn lemma_regproducer2_args_layout(a: Regproducer2Args)
    ensures
        a.packed() == a.producer.packed() + a.producer_authority.packed() + a.url.packed() + a.location.packed(),
{
    assert(a.packed() =~= a.producer.packed() + a.producer_authority.packed() + a.url.packed() + a.location.packed());
}

/// `RegproxyArgs` is encoded as its fields, one after the other, in the order
/// `proxy`, `is_proxy`.
pub proof fn lemma_regproxy_args_layout(a: RegproxyArgs)
    ensures
        a.packed() == a.proxy.packed() + a.is_proxy.packed(),
{
    assert(a.packed() =~= a.proxy.packed() + a.is_proxy.packed());
}

/// `CreateArgs` is encoded as its fields, one after the other, in the order
/// `issuer`, `maximum_supply`.
pub proof fn lemma_create_args_layout(a: CreateArgs)
    ensures
        a.packed() == a.issuer.packed() + a.maximum_supply.packed(),
{
    assert(a.packed() =~= a.issuer.packed() + a.maximum_supply.packed());
}

/// `IssueArgs` is encoded as its fields, one after the other, in the order
/// `to`, `quantity`, `memo`.
pub proof fn lemma_issue_args_layout(a: IssueArgs)
    ensures
        a.packed() == a.to.packed() + a.quantity.packed() + a.memo.packed(),
{
    assert(a.packed() =~= a.to.packed() + a.quantity.packed() + a.memo.packed());
}

/// `RetireArgs` is encoded as its fields, one after the other, in the order
/// `quantity`, `memo`.
pub proof fn lemma_retire_args_layout(a: RetireArgs)
    ensures
        a.packed() == a.quantity.packed() + a.memo.packed(),
{
    assert(a.packed() =~= a.quantity.packed() + a.memo.packed());
}

/// `TransferArgs` is encoded as its fields, one after the other, in the order
/// `from`, `to`, `quantity`, `memo`.
pub proof fn lemma_transfer_args_layout(a: TransferArgs)
    ensures
        a.packed() == a.from.packed() + a.to.packed() + a.quantity.packed() + a.memo.packed(),
{
    assert(a.packed() =~= a.from.packed() + a.to.packed() + a.quantity.packed() + a.memo.packed());
}

/// `OpenArgs` is encoded as its fields, one after the other, in the order
/// `owner`, `symbol`, `ram_payer`.
pub proof fn lemma_open_args_layout(a: OpenArgs)
    ensures
        a.packed() == a.owner.packed() + a.symbol.packed() + a.ram_payer.packed(),
{
    assert(a.packed() =~= a.owner.packed() + a.symbol.packed() + a.ram_payer.packed());
}

/// `CloseArgs` is encoded as its fields, one after the other, in the order
/// `owner`, `symbol`.
pub proof fn lemma_close_args_layout(a: CloseArgs)
    ensures
        a.packed() == a.owner.packed() + a.symbol.packed(),
{
    assert(a.packed() =~= a.owner.packed() + a.symbol.packed());
}

/// `ProposeArgs` is encoded as its fields, one after the other, in the order
/// `proposer`, `proposal_name`, `requested`, `trx`.
pub proof fn lemma_propose_args_layout(a: ProposeArgs)
    ensures
        a.packed() == a.proposer.packed() + a.proposal_name.packed() + a.requested.packed() + a.trx.packed(),
{
    assert(a.packed() =~= a.proposer.packed() + a.proposal_name.packed() + a.requested.packed() + a.trx.packed());
}

/// `ApproveArgs` is encoded as its fields, one after the other, in the order
/// `proposer`, `proposal_name`, `level`, `proposal_hash`.
pub proof fn lemma_approve_args_layout(a: ApproveArgs)
    ensures
        a.packed() == a.proposer.packed() + a.proposal_name.packed() + a.level.packed() + a.proposal_hash.packed(),
{
    assert(a.packed() =~= a.proposer.packed() + a.proposal_name.packed() + a.level.packed() + a.proposal_hash.packed());
}

/// `UnapproveArgs` is encoded as its fields, one after the other, in the order
/// `proposer`, `proposal_name`, `level`.
pub proof fn lemma_unapprove_args_layout(a: UnapproveArgs)
    ensures
        a.packed() == a.proposer.packed() + a.proposal_name.packed() + a.level.packed(),
{
    assert(a.packed() =~= a.proposer.packed() + a.proposal_name.packed() + a.level.packed());
}

/// `CancelArgs` is encoded as its fields, one after the other, in the order
/// `proposer`, `proposal_name`, `canceler`.
pub proof fn lemma_cancel_args_layout(a: CancelArgs)
    ensures
        a.packed() == a.proposer.packed() + a.proposal_name.packed() + a.canceler.packed(),
{
    assert(a.packed() =~= a.proposer.packed() + a.proposal_name.packed() + a.canceler.packed());
}

/// `ExecArgs` is encoded as its fields, one after the other, in the order
/// `proposer`, `proposal_name`, `executer`.
pub proof fn lemma_exec_args_layout(a: ExecArgs)
    ensures
        a.packed() == a.proposer.packed() + a.proposal_name.packed() + a.executer.packed(),
{
    assert(a.packed() =~= a.proposer.packed() + a.proposal_name.packed() + a.executer.packed());
}

/// `SetalimitsArgs` is encoded as its fields, one after the other, in the order
/// `account`, `ram_bytes`, `net_weight`, `cpu_weight`.
pub proof fn lemma_setalimits_args_layout(a: SetalimitsArgs)
    ensures
        a.packed() == a.account.packed() + a.ram_bytes.packed() + a.net_weight.packed() + a.cpu_weight.packed(),
{
    assert(a.packed() =~= a.account.packed() + a.ram_bytes.packed() + a.net_weight.packed() + a.cpu_weight.packed());
}

/// `UpdateauthArgs` is encoded as its fields, one after the other, in the order
/// `account`, `permission`, `parent`, `auth`.
pub proof fn lemma_updateauth_args_layout(a: UpdateauthArgs)
    ensures
        a.packed() == a.account.packed() + a.permission.packed() + a.parent.packed() + a.auth.packed(),
{
    assert(a.packed() =~= a.account.packed() + a.permission.packed() + a.parent.packed() + a.auth.packed());
}

/// `DeleteauthArgs` is encoded as its fields, one after the other, in the order
/// `account`, `permission`.
pub proof fn lemma_deleteauth_args_layout(a: DeleteauthArgs)
    ensures
        a.packed() == a.account.packed() + a.permission.packed(),
{
    assert(a.packed() =~= a.account.packed() + a.permission.packed());
}

/// `LinkauthArgs` is encoded as its fields, one after the other, in the order
/// `account`, `code`, `message_type`, `requirement`.
pub proof fn lemma_linkauth_args_layout(a: LinkauthArgs)
    ensures
        a.packed() == a.account.packed() + a.code.packed() + a.message_type.packed() + a.requirement.packed(),
{
    assert(a.packed() =~= a.account.packed() + a.code.packed() + a.message_type.packed() + a.requirement.packed());
}

/// `UnlinkauthArgs` is encoded as its fields, one after the other, in the order
/// `account`, `code`, `message_type`.
pub proof fn lemma_unlinkauth_args_layout(a: UnlinkauthArgs)
    ensures
        a.packed() == a.account.packed() + a.code.packed() + a.message_type.packed(),
{
    assert(a.packed() =~= a.account.packed() + a.code.packed() + a.message_type.packed());
}

/// The transfer's arguments stand in the order the action takes them: bytes
/// 0..8 of the encoding are the little-endian value of `from`, bytes 8..16
/// that of `to`, bytes 16..32 the quantity (amount, then symbol), and the
/// rest the memo.
pub proof fn lemma_transfer_args_bytes(a: TransferArgs)
    ensures
        a.packed().len() >= 32,
        a.packed().subrange(0, 8) == crate::codec::le_u64(a.from.0),
        a.packed().subrange(8, 16) == crate::codec::le_u64(a.to.0),
        a.packed().subrange(16, 32) == a.quantity.packed(),
        a.packed().subrange(32, a.packed().len() as int) == a.memo.packed(),
{
    let p = a.packed();
    assert(a.from.packed().len() == 8);
    assert(a.to.packed().len() == 8);
    assert(a.quantity.packed().len() == 16);
    assert(p.subrange(0, 8) =~= a.from.packed());
    assert(p.subrange(8, 16) =~= a.to.packed());
    assert(p.subrange(16, 32) =~= a.quantity.packed());
    assert(p.subrange(32, p.len() as int) =~= a.memo.packed());
}

} // verus!
