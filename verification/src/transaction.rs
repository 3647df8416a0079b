use vstd::prelude::*;

use crate::action::Action;
use crate::authority::PermissionLevel;
use crate::codec::{lemma_prefix_concat, lemma_written_concat, prefix_at, Packed, ReadError, VarUint32, WriteError};
use crate::name::Name;
use crate::time::TimePointSec;

verus! {

/// The header of a transaction.
#[derive(Debug, Clone, Copy)]
pub struct TransactionHeader {
    /// The time after which the transaction may not run
    pub expiration: TimePointSec,
    /// Low bits of a recent block number, to tie the transaction to a chain
    pub ref_block_num: u16,
    /// Bits of that block's id
    pub ref_block_prefix: u32,
    /// Network usage allowed, in words of 8 bytes
    pub max_net_usage_words: VarUint32,
    /// CPU usage allowed, in milliseconds
    pub max_cpu_usage: u8,
    /// Seconds to wait before running
    pub delay_sec: VarUint32,
}

/// An extension of a transaction: a kind and its data.
#[derive(Debug, Clone)]
pub struct Extension {
    pub kind: u16,
    pub data: Vec<u8>,
}

/// A transaction: a header and the actions it runs.
#[derive(Debug, Clone)]
pub struct Transaction {
    pub header: TransactionHeader,
    pub context_free_actions: Vec<Action<Vec<u8>>>,
    pub actions: Vec<Action<Vec<u8>>>,
    pub transaction_extensions: Vec<Extension>,
}

impl Packed for TransactionHeader {
    open spec fn packed(&self) -> Seq<u8> {
        self.expiration.packed() + (self.ref_block_num.packed() + (self.ref_block_prefix.packed() + (self.max_net_usage_words.packed() + (self.max_cpu_usage.packed() + self.delay_sec.packed()))))
    }

    proof fn lemma_unique(a: Self, b: Self, bytes: Seq<u8>, pos: int) {
        let ghost mut q = pos;
        lemma_prefix_concat(a.expiration.packed(), a.ref_block_num.packed() + (a.ref_block_prefix.packed() + (a.max_net_usage_words.packed() + (a.max_cpu_usage.packed() + a.delay_sec.packed()))), bytes, q);
        lemma_prefix_concat(b.expiration.packed(), b.ref_block_num.packed() + (b.ref_block_prefix.packed() + (b.max_net_usage_words.packed() + (b.max_cpu_usage.packed() + b.delay_sec.packed()))), bytes, q);
        <TimePointSec as Packed>::lemma_unique(a.expiration, b.expiration, bytes, q);
        q = q + a.expiration.packed().len();
        lemma_prefix_concat(a.ref_block_num.packed(), a.ref_block_prefix.packed() + (a.max_net_usage_words.packed() + (a.max_cpu_usage.packed() + a.delay_sec.packed())), bytes, q);
        lemma_prefix_concat(b.ref_block_num.packed(), b.ref_block_prefix.packed() + (b.max_net_usage_words.packed() + (b.max_cpu_usage.packed() + b.delay_sec.packed())), bytes, q);
        <u16 as Packed>::lemma_unique(a.ref_block_num, b.ref_block_num, bytes, q);
        q = q + a.ref_block_num.packed().len();
        lemma_prefix_concat(a.ref_block_prefix.packed(), a.max_net_usage_words.packed() + (a.max_cpu_usage.packed() + a.delay_sec.packed()), bytes, q);
        lemma_prefix_concat(b.ref_block_prefix.packed(), b.max_net_usage_words.packed() + (b.max_cpu_usage.packed() + b.delay_sec.packed()), bytes, q);
        <u32 as Packed>::lemma_unique(a.ref_block_prefix, b.ref_block_prefix, bytes, q);
        q = q + a.ref_block_prefix.packed().len();
        lemma_prefix_concat(a.max_net_usage_words.packed(), a.max_cpu_usage.packed() + a.delay_sec.packed(), bytes, q);
        lemma_prefix_concat(b.max_net_usage_words.packed(), b.max_cpu_usage.packed() + b.delay_sec.packed(), bytes, q);
        <VarUint32 as Packed>::lemma_unique(a.max_net_usage_words, b.max_net_usage_words, bytes, q);
        q = q + a.max_net_usage_words.packed().len();
        lemma_prefix_concat(a.max_cpu_usage.packed(), a.delay_sec.packed(), bytes, q);
        lemma_prefix_concat(b.max_cpu_usage.packed(), b.delay_sec.packed(), bytes, q);
        <u8 as Packed>::lemma_unique(a.max_cpu_usage, b.max_cpu_usage, bytes, q);
        q = q + a.max_cpu_usage.packed().len();
        <VarUint32 as Packed>::lemma_unique(a.delay_sec, b.delay_sec, bytes, q);
    }

    open spec fn same_value(&self, other: &Self) -> bool {
        &&& self.expiration.same_value(&other.expiration)
        &&& self.ref_block_num.same_value(&other.ref_block_num)
        &&& self.ref_block_prefix.same_value(&other.ref_block_prefix)
        &&& self.max_net_usage_words.same_value(&other.max_net_usage_words)
        &&& self.max_cpu_usage.same_value(&other.max_cpu_usage)
        &&& self.delay_sec.same_value(&other.delay_sec)
    }

    proof fn lemma_injective(a: Self, b: Self) {
        let bytes = a.packed();
        let pos: int = 0;
        assert(bytes.subrange(0, bytes.len() as int) =~= bytes);
        let ghost mut q = pos;
        lemma_prefix_concat(a.expiration.packed(), a.ref_block_num.packed() + (a.ref_block_prefix.packed() + (a.max_net_usage_words.packed() + (a.max_cpu_usage.packed() + a.delay_sec.packed()))), bytes, q);
        lemma_prefix_concat(b.expiration.packed(), b.ref_block_num.packed() + (b.ref_block_prefix.packed() + (b.max_net_usage_words.packed() + (b.max_cpu_usage.packed() + b.delay_sec.packed()))), bytes, q);
        <TimePointSec as Packed>::lemma_unique(a.expiration, b.expiration, bytes, q);
        <TimePointSec as Packed>::lemma_injective(a.expiration, b.expiration);
        q = q + a.expiration.packed().len();
        lemma_prefix_concat(a.ref_block_num.packed(), a.ref_block_prefix.packed() + (a.max_net_usage_words.packed() + (a.max_cpu_usage.packed() + a.delay_sec.packed())), bytes, q);
        lemma_prefix_concat(b.ref_block_num.packed(), b.ref_block_prefix.packed() + (b.max_net_usage_words.packed() + (b.max_cpu_usage.packed() + b.delay_sec.packed())), bytes, q);
        <u16 as Packed>::lemma_unique(a.ref_block_num, b.ref_block_num, bytes, q);
        <u16 as Packed>::lemma_injective(a.ref_block_num, b.ref_block_num);
        q = q + a.ref_block_num.packed().len();
        lemma_prefix_concat(a.ref_block_prefix.packed(), a.max_net_usage_words.packed() + (a.max_cpu_usage.packed() + a.delay_sec.packed()), bytes, q);
        lemma_prefix_concat(b.ref_block_prefix.packed(), b.max_net_usage_words.packed() + (b.max_cpu_usage.packed() + b.delay_sec.packed()), bytes, q);
        <u32 as Packed>::lemma_unique(a.ref_block_prefix, b.ref_block_prefix, bytes, q);
        <u32 as Packed>::lemma_injective(a.ref_block_prefix, b.ref_block_prefix);
        q = q + a.ref_block_prefix.packed().len();
        lemma_prefix_concat(a.max_net_usage_words.packed(), a.max_cpu_usage.packed() + a.delay_sec.packed(), bytes, q);
        lemma_prefix_concat(b.max_net_usage_words.packed(), b.max_cpu_usage.packed() + b.delay_sec.packed(), bytes, q);
        <VarUint32 as Packed>::lemma_unique(a.max_net_usage_words, b.max_net_usage_words, bytes, q);
        <VarUint32 as Packed>::lemma_injective(a.max_net_usage_words, b.max_net_usage_words);
        q = q + a.max_net_usage_words.packed().len();
        lemma_prefix_concat(a.max_cpu_usage.packed(), a.delay_sec.packed(), bytes, q);
        lemma_prefix_concat(b.max_cpu_usage.packed(), b.delay_sec.packed(), bytes, q);
        <u8 as Packed>::lemma_unique(a.max_cpu_usage, b.max_cpu_usage, bytes, q);
        <u8 as Packed>::lemma_injective(a.max_cpu_usage, b.max_cpu_usage);
        q = q + a.max_cpu_usage.packed().len();
        <VarUint32 as Packed>::lemma_unique(a.delay_sec, b.delay_sec, bytes, q);
        <VarUint32 as Packed>::lemma_injective(a.delay_sec, b.delay_sec);
    }

    fn num_bytes(&self) -> (n: usize) {
        self.expiration.num_bytes() + self.ref_block_num.num_bytes() + self.ref_block_prefix.num_bytes() + self.max_net_usage_words.num_bytes() + self.max_cpu_usage.num_bytes() + self.delay_sec.num_bytes()
    }

    fn read(bytes: &[u8], pos: &mut usize) -> (r: Result<Self, ReadError>) {
        let mut p = *pos;
        let ghost q0: int = p as int;
        let x0 = match <TimePointSec as Packed>::read(bytes, &mut p) {
            Ok(x) => x,
            Err(e) => {
                proof {
                    assert forall|v: TransactionHeader| !prefix_at(#[trigger] v.packed(), bytes@, *old(pos) as int) by {
                        if prefix_at(v.packed(), bytes@, *old(pos) as int) {
                            lemma_prefix_concat(v.expiration.packed(), v.ref_block_num.packed() + (v.ref_block_prefix.packed() + (v.max_net_usage_words.packed() + (v.max_cpu_usage.packed() + v.delay_sec.packed()))), bytes@, q0);
                        }
                    }
                }
                return Err(e);
            },
        };
        let ghost q1: int = p as int;
        let x1 = match <u16 as Packed>::read(bytes, &mut p) {
            Ok(x) => x,
            Err(e) => {
                proof {
                    assert forall|v: TransactionHeader| !prefix_at(#[trigger] v.packed(), bytes@, *old(pos) as int) by {
                        if prefix_at(v.packed(), bytes@, *old(pos) as int) {
                            lemma_prefix_concat(v.expiration.packed(), v.ref_block_num.packed() + (v.ref_block_prefix.packed() + (v.max_net_usage_words.packed() + (v.max_cpu_usage.packed() + v.delay_sec.packed()))), bytes@, q0);
                            <TimePointSec as Packed>::lemma_unique(v.expiration, x0, bytes@, q0);
                            lemma_prefix_concat(v.ref_block_num.packed(), v.ref_block_prefix.packed() + (v.max_net_usage_words.packed() + (v.max_cpu_usage.packed() + v.delay_sec.packed())), bytes@, q1);
                        }
                    }
                }
                return Err(e);
            },
        };
        let ghost q2: int = p as int;
        let x2 = match <u32 as Packed>::read(bytes, &mut p) {
            Ok(x) => x,
            Err(e) => {
                proof {
                    assert forall|v: TransactionHeader| !prefix_at(#[trigger] v.packed(), bytes@, *old(pos) as int) by {
                        if prefix_at(v.packed(), bytes@, *old(pos) as int) {
                            lemma_prefix_concat(v.expiration.packed(), v.ref_block_num.packed() + (v.ref_block_prefix.packed() + (v.max_net_usage_words.packed() + (v.max_cpu_usage.packed() + v.delay_sec.packed()))), bytes@, q0);
                            <TimePointSec as Packed>::lemma_unique(v.expiration, x0, bytes@, q0);
                            lemma_prefix_concat(v.ref_block_num.packed(), v.ref_block_prefix.packed() + (v.max_net_usage_words.packed() + (v.max_cpu_usage.packed() + v.delay_sec.packed())), bytes@, q1);
                            <u16 as Packed>::lemma_unique(v.ref_block_num, x1, bytes@, q1);
                            lemma_prefix_concat(v.ref_block_prefix.packed(), v.max_net_usage_words.packed() + (v.max_cpu_usage.packed() + v.delay_sec.packed()), bytes@, q2);
                        }
                    }
                }
                return Err(e);
            },
        };
        let ghost q3: int = p as int;
        let x3 = match <VarUint32 as Packed>::read(bytes, &mut p) {
            Ok(x) => x,
            Err(e) => {
                proof {
                    assert forall|v: TransactionHeader| !prefix_at(#[trigger] v.packed(), bytes@, *old(pos) as int) by {
                        if prefix_at(v.packed(), bytes@, *old(pos) as int) {
                            lemma_prefix_concat(v.expiration.packed(), v.ref_block_num.packed() + (v.ref_block_prefix.packed() + (v.max_net_usage_words.packed() + (v.max_cpu_usage.packed() + v.delay_sec.packed()))), bytes@, q0);
                            <TimePointSec as Packed>::lemma_unique(v.expiration, x0, bytes@, q0);
                            lemma_prefix_concat(v.ref_block_num.packed(), v.ref_block_prefix.packed() + (v.max_net_usage_words.packed() + (v.max_cpu_usage.packed() + v.delay_sec.packed())), bytes@, q1);
                            <u16 as Packed>::lemma_unique(v.ref_block_num, x1, bytes@, q1);
                            lemma_prefix_concat(v.ref_block_prefix.packed(), v.max_net_usage_words.packed() + (v.max_cpu_usage.packed() + v.delay_sec.packed()), bytes@, q2);
                            <u32 as Packed>::lemma_unique(v.ref_block_prefix, x2, bytes@, q2);
                            lemma_prefix_concat(v.max_net_usage_words.packed(), v.max_cpu_usage.packed() + v.delay_sec.packed(), bytes@, q3);
                        }
                    }
                }
                return Err(e);
            },
        };
        let ghost q4: int = p as int;
        let x4 = match <u8 as Packed>::read(bytes, &mut p) {
            Ok(x) => x,
            Err(e) => {
                proof {
                    assert forall|v: TransactionHeader| !prefix_at(#[trigger] v.packed(), bytes@, *old(pos) as int) by {
                        if prefix_at(v.packed(), bytes@, *old(pos) as int) {
                            lemma_prefix_concat(v.expiration.packed(), v.ref_block_num.packed() + (v.ref_block_prefix.packed() + (v.max_net_usage_words.packed() + (v.max_cpu_usage.packed() + v.delay_sec.packed()))), bytes@, q0);
                            <TimePointSec as Packed>::lemma_unique(v.expiration, x0, bytes@, q0);
                            lemma_prefix_concat(v.ref_block_num.packed(), v.ref_block_prefix.packed() + (v.max_net_usage_words.packed() + (v.max_cpu_usage.packed() + v.delay_sec.packed())), bytes@, q1);
                            <u16 as Packed>::lemma_unique(v.ref_block_num, x1, bytes@, q1);
                            lemma_prefix_concat(v.ref_block_prefix.packed(), v.max_net_usage_words.packed() + (v.max_cpu_usage.packed() + v.delay_sec.packed()), bytes@, q2);
                            <u32 as Packed>::lemma_unique(v.ref_block_prefix, x2, bytes@, q2);
                            lemma_prefix_concat(v.max_net_usage_words.packed(), v.max_cpu_usage.packed() + v.delay_sec.packed(), bytes@, q3);
                            <VarUint32 as Packed>::lemma_unique(v.max_net_usage_words, x3, bytes@, q3);
                            lemma_prefix_concat(v.max_cpu_usage.packed(), v.delay_sec.packed(), bytes@, q4);
                        }
                    }
                }
                return Err(e);
            },
        };
        let ghost q5: int = p as int;
        let x5 = match <VarUint32 as Packed>::read(bytes, &mut p) {
            Ok(x) => x,
            Err(e) => {
                proof {
                    assert forall|v: TransactionHeader| !prefix_at(#[trigger] v.packed(), bytes@, *old(pos) as int) by {
                        if prefix_at(v.packed(), bytes@, *old(pos) as int) {
                            lemma_prefix_concat(v.expiration.packed(), v.ref_block_num.packed() + (v.ref_block_prefix.packed() + (v.max_net_usage_words.packed() + (v.max_cpu_usage.packed() + v.delay_sec.packed()))), bytes@, q0);
                            <TimePointSec as Packed>::lemma_unique(v.expiration, x0, bytes@, q0);
                            lemma_prefix_concat(v.ref_block_num.packed(), v.ref_block_prefix.packed() + (v.max_net_usage_words.packed() + (v.max_cpu_usage.packed() + v.delay_sec.packed())), bytes@, q1);
                            <u16 as Packed>::lemma_unique(v.ref_block_num, x1, bytes@, q1);
                            lemma_prefix_concat(v.ref_block_prefix.packed(), v.max_net_usage_words.packed() + (v.max_cpu_usage.packed() + v.delay_sec.packed()), bytes@, q2);
                            <u32 as Packed>::lemma_unique(v.ref_block_prefix, x2, bytes@, q2);
                            lemma_prefix_concat(v.max_net_usage_words.packed(), v.max_cpu_usage.packed() + v.delay_sec.packed(), bytes@, q3);
                            <VarUint32 as Packed>::lemma_unique(v.max_net_usage_words, x3, bytes@, q3);
                            lemma_prefix_concat(v.max_cpu_usage.packed(), v.delay_sec.packed(), bytes@, q4);
                            <u8 as Packed>::lemma_unique(v.max_cpu_usage, x4, bytes@, q4);
                        }
                    }
                }
                return Err(e);
            },
        };
        let v = TransactionHeader { expiration: x0, ref_block_num: x1, ref_block_prefix: x2, max_net_usage_words: x3, max_cpu_usage: x4, delay_sec: x5 };
        proof {
            lemma_prefix_concat(v.max_cpu_usage.packed(), v.delay_sec.packed(), bytes@, q4);
            lemma_prefix_concat(v.max_net_usage_words.packed(), v.max_cpu_usage.packed() + v.delay_sec.packed(), bytes@, q3);
            lemma_prefix_concat(v.ref_block_prefix.packed(), v.max_net_usage_words.packed() + (v.max_cpu_usage.packed() + v.delay_sec.packed()), bytes@, q2);
            lemma_prefix_concat(v.ref_block_num.packed(), v.ref_block_prefix.packed() + (v.max_net_usage_words.packed() + (v.max_cpu_usage.packed() + v.delay_sec.packed())), bytes@, q1);
            lemma_prefix_concat(v.expiration.packed(), v.ref_block_num.packed() + (v.ref_block_prefix.packed() + (v.max_net_usage_words.packed() + (v.max_cpu_usage.packed() + v.delay_sec.packed()))), bytes@, q0);
        }
        *pos = p;
        Ok(v)
    }

    fn write(&self, bytes: &mut [u8], pos: &mut usize) -> (r: Result<(), WriteError>) {
        let mut p = *pos;
        let ghost start = *pos as int;
        let ghost buf0 = bytes@;
        match self.expiration.write(bytes, &mut p) {
            Err(e) => {
                proof {
                    assert(self.packed() =~= self.expiration.packed() + (self.ref_block_num.packed() + (self.ref_block_prefix.packed() + (self.max_net_usage_words.packed() + (self.max_cpu_usage.packed() + self.delay_sec.packed())))));
                }
                return Err(e);
            },
            Ok(()) => {},
        }
        match self.ref_block_num.write(bytes, &mut p) {
            Err(e) => {
                proof {
                    assert(self.packed() =~= self.expiration.packed() + self.ref_block_num.packed() + (self.ref_block_prefix.packed() + (self.max_net_usage_words.packed() + (self.max_cpu_usage.packed() + self.delay_sec.packed()))));
                }
                return Err(e);
            },
            Ok(()) => {},
        }
        proof {
            lemma_written_concat(buf0, start, self.expiration.packed(), self.ref_block_num.packed());
        }
        match self.ref_block_prefix.write(bytes, &mut p) {
            Err(e) => {
                proof {
                    assert(self.packed() =~= self.expiration.packed() + self.ref_block_num.packed() + self.ref_block_prefix.packed() + (self.max_net_usage_words.packed() + (self.max_cpu_usage.packed() + self.delay_sec.packed())));
                }
                return Err(e);
            },
            Ok(()) => {},
        }
        proof {
            lemma_written_concat(buf0, start, self.expiration.packed() + self.ref_block_num.packed(), self.ref_block_prefix.packed());
        }
        match self.max_net_usage_words.write(bytes, &mut p) {
            Err(e) => {
                proof {
                    assert(self.packed() =~= self.expiration.packed() + self.ref_block_num.packed() + self.ref_block_prefix.packed() + self.max_net_usage_words.packed() + (self.max_cpu_usage.packed() + self.delay_sec.packed()));
                }
                return Err(e);
            },
            Ok(()) => {},
        }
        proof {
            lemma_written_concat(buf0, start, self.expiration.packed() + self.ref_block_num.packed() + self.ref_block_prefix.packed(), self.max_net_usage_words.packed());
        }
        match self.max_cpu_usage.write(bytes, &mut p) {
            Err(e) => {
                proof {
                    assert(self.packed() =~= self.expiration.packed() + self.ref_block_num.packed() + self.ref_block_prefix.packed() + self.max_net_usage_words.packed() + self.max_cpu_usage.packed() + (self.delay_sec.packed()));
                }
                return Err(e);
            },
            Ok(()) => {},
        }
        proof {
            lemma_written_concat(buf0, start, self.expiration.packed() + self.ref_block_num.packed() + self.ref_block_prefix.packed() + self.max_net_usage_words.packed(), self.max_cpu_usage.packed());
        }
        match self.delay_sec.write(bytes, &mut p) {
            Err(e) => {
                proof {
                    assert(self.packed() =~= self.expiration.packed() + self.ref_block_num.packed() + self.ref_block_prefix.packed() + self.max_net_usage_words.packed() + self.max_cpu_usage.packed() + self.delay_sec.packed());
                }
                return Err(e);
            },
            Ok(()) => {},
        }
        proof {
            lemma_written_concat(buf0, start, self.expiration.packed() + self.ref_block_num.packed() + self.ref_block_prefix.packed() + self.max_net_usage_words.packed() + self.max_cpu_usage.packed(), self.delay_sec.packed());
        }
        proof {
            assert(self.expiration.packed() + self.ref_block_num.packed() + self.ref_block_prefix.packed() + self.max_net_usage_words.packed() + self.max_cpu_usage.packed() + self.delay_sec.packed() =~= self.packed());
        }
        *pos = p;
        Ok(())
    }
}

impl Packed for Action<Vec<u8>> {
    open spec fn packed(&self) -> Seq<u8> {
        self.account.packed() + (self.name.packed() + (self.authorization.packed() + self.data.packed()))
    }

    proof fn lemma_unique(a: Self, b: Self, bytes: Seq<u8>, pos: int) {
        let ghost mut q = pos;
        lemma_prefix_concat(a.account.packed(), a.name.packed() + (a.authorization.packed() + a.data.packed()), bytes, q);
        lemma_prefix_concat(b.account.packed(), b.name.packed() + (b.authorization.packed() + b.data.packed()), bytes, q);
        <Name as Packed>::lemma_unique(a.account, b.account, bytes, q);
        q = q + a.account.packed().len();
        lemma_prefix_concat(a.name.packed(), a.authorization.packed() + a.data.packed(), bytes, q);
        lemma_prefix_concat(b.name.packed(), b.authorization.packed() + b.data.packed(), bytes, q);
        <Name as Packed>::lemma_unique(a.name, b.name, bytes, q);
        q = q + a.name.packed().len();
        lemma_prefix_concat(a.authorization.packed(), a.data.packed(), bytes, q);
        lemma_prefix_concat(b.authorization.packed(), b.data.packed(), bytes, q);
        <Vec<PermissionLevel> as Packed>::lemma_unique(a.authorization, b.authorization, bytes, q);
        q = q + a.authorization.packed().len();
        <Vec<u8> as Packed>::lemma_unique(a.data, b.data, bytes, q);
    }

    open spec fn same_value(&self, other: &Self) -> bool {
        &&& self.account.same_value(&other.account)
        &&& self.name.same_value(&other.name)
        &&& self.authorization.same_value(&other.authorization)
        &&& self.data.same_value(&other.data)
    }

    proof fn lemma_injective(a: Self, b: Self) {
        let bytes = a.packed();
        let pos: int = 0;
        assert(bytes.subrange(0, bytes.len() as int) =~= bytes);
        let ghost mut q = pos;
        lemma_prefix_concat(a.account.packed(), a.name.packed() + (a.authorization.packed() + a.data.packed()), bytes, q);
        lemma_prefix_concat(b.account.packed(), b.name.packed() + (b.authorization.packed() + b.data.packed()), bytes, q);
        <Name as Packed>::lemma_unique(a.account, b.account, bytes, q);
        <Name as Packed>::lemma_injective(a.account, b.account);
        q = q + a.account.packed().len();
        lemma_prefix_concat(a.name.packed(), a.authorization.packed() + a.data.packed(), bytes, q);
        lemma_prefix_concat(b.name.packed(), b.authorization.packed() + b.data.packed(), bytes, q);
        <Name as Packed>::lemma_unique(a.name, b.name, bytes, q);
        <Name as Packed>::lemma_injective(a.name, b.name);
        q = q + a.name.packed().len();
        lemma_prefix_concat(a.authorization.packed(), a.data.packed(), bytes, q);
        lemma_prefix_concat(b.authorization.packed(), b.data.packed(), bytes, q);
        <Vec<PermissionLevel> as Packed>::lemma_unique(a.authorization, b.authorization, bytes, q);
        <Vec<PermissionLevel> as Packed>::lemma_injective(a.authorization, b.authorization);
        q = q + a.authorization.packed().len();
        <Vec<u8> as Packed>::lemma_unique(a.data, b.data, bytes, q);
        <Vec<u8> as Packed>::lemma_injective(a.data, b.data);
    }

    fn num_bytes(&self) -> (n: usize) {
        self.account.num_bytes() + self.name.num_bytes() + self.authorization.num_bytes() + self.data.num_bytes()
    }

    fn read(bytes: &[u8], pos: &mut usize) -> (r: Result<Self, ReadError>) {
        let mut p = *pos;
        let ghost q0: int = p as int;
        let x0 = match <Name as Packed>::read(bytes, &mut p) {
            Ok(x) => x,
            Err(e) => {
                proof {
                    assert forall|v: Action<Vec<u8>>| !prefix_at(#[trigger] v.packed(), bytes@, *old(pos) as int) by {
                        if prefix_at(v.packed(), bytes@, *old(pos) as int) {
                            lemma_prefix_concat(v.account.packed(), v.name.packed() + (v.authorization.packed() + v.data.packed()), bytes@, q0);
                        }
                    }
                }
                return Err(e);
            },
        };
        let ghost q1: int = p as int;
        let x1 = match <Name as Packed>::read(bytes, &mut p) {
            Ok(x) => x,
            Err(e) => {
                proof {
                    assert forall|v: Action<Vec<u8>>| !prefix_at(#[trigger] v.packed(), bytes@, *old(pos) as int) by {
                        if prefix_at(v.packed(), bytes@, *old(pos) as int) {
                            lemma_prefix_concat(v.account.packed(), v.name.packed() + (v.authorization.packed() + v.data.packed()), bytes@, q0);
                            <Name as Packed>::lemma_unique(v.account, x0, bytes@, q0);
                            lemma_prefix_concat(v.name.packed(), v.authorization.packed() + v.data.packed(), bytes@, q1);
                        }
                    }
                }
                return Err(e);
            },
        };
        let ghost q2: int = p as int;
        let x2 = match <Vec<PermissionLevel> as Packed>::read(bytes, &mut p) {
            Ok(x) => x,
            Err(e) => {
                proof {
                    assert forall|v: Action<Vec<u8>>| !prefix_at(#[trigger] v.packed(), bytes@, *old(pos) as int) by {
                        if prefix_at(v.packed(), bytes@, *old(pos) as int) {
                            lemma_prefix_concat(v.account.packed(), v.name.packed() + (v.authorization.packed() + v.data.packed()), bytes@, q0);
                            <Name as Packed>::lemma_unique(v.account, x0, bytes@, q0);
                            lemma_prefix_concat(v.name.packed(), v.authorization.packed() + v.data.packed(), bytes@, q1);
                            <Name as Packed>::lemma_unique(v.name, x1, bytes@, q1);
                            lemma_prefix_concat(v.authorization.packed(), v.data.packed(), bytes@, q2);
                        }
                    }
                }
                return Err(e);
            },
        };
        let ghost q3: int = p as int;
        let x3 = match <Vec<u8> as Packed>::read(bytes, &mut p) {
            Ok(x) => x,
            Err(e) => {
                proof {
                    assert forall|v: Action<Vec<u8>>| !prefix_at(#[trigger] v.packed(), bytes@, *old(pos) as int) by {
                        if prefix_at(v.packed(), bytes@, *old(pos) as int) {
                            lemma_prefix_concat(v.account.packed(), v.name.packed() + (v.authorization.packed() + v.data.packed()), bytes@, q0);
                            <Name as Packed>::lemma_unique(v.account, x0, bytes@, q0);
                            lemma_prefix_concat(v.name.packed(), v.authorization.packed() + v.data.packed(), bytes@, q1);
                            <Name as Packed>::lemma_unique(v.name, x1, bytes@, q1);
                            lemma_prefix_concat(v.authorization.packed(), v.data.packed(), bytes@, q2);
                            <Vec<PermissionLevel> as Packed>::lemma_unique(v.authorization, x2, bytes@, q2);
                        }
                    }
                }
                return Err(e);
            },
        };
        let v = Action::<Vec<u8>> { account: x0, name: x1, authorization: x2, data: x3 };
        proof {
            lemma_prefix_concat(v.authorization.packed(), v.data.packed(), bytes@, q2);
            lemma_prefix_concat(v.name.packed(), v.authorization.packed() + v.data.packed(), bytes@, q1);
            lemma_prefix_concat(v.account.packed(), v.name.packed() + (v.authorization.packed() + v.data.packed()), bytes@, q0);
        }
        *pos = p;
        Ok(v)
    }

    fn write(&self, bytes: &mut [u8], pos: &mut usize) -> (r: Result<(), WriteError>) {
        let mut p = *pos;
        let ghost start = *pos as int;
        let ghost buf0 = bytes@;
        match self.account.write(bytes, &mut p) {
            Err(e) => {
                proof {
                    assert(self.packed() =~= self.account.packed() + (self.name.packed() + (self.authorization.packed() + self.data.packed())));
                }
                return Err(e);
            },
            Ok(()) => {},
        }
        match self.name.write(bytes, &mut p) {
            Err(e) => {
                proof {
                    assert(self.packed() =~= self.account.packed() + self.name.packed() + (self.authorization.packed() + self.data.packed()));
                }
                return Err(e);
            },
            Ok(()) => {},
        }
        proof {
            lemma_written_concat(buf0, start, self.account.packed(), self.name.packed());
        }
        match self.authorization.write(bytes, &mut p) {
            Err(e) => {
                proof {
                    assert(self.packed() =~= self.account.packed() + self.name.packed() + self.authorization.packed() + (self.data.packed()));
                }
                return Err(e);
            },
            Ok(()) => {},
        }
        proof {
            lemma_written_concat(buf0, start, self.account.packed() + self.name.packed(), self.authorization.packed());
        }
        match self.data.write(bytes, &mut p) {
            Err(e) => {
                proof {
                    assert(self.packed() =~= self.account.packed() + self.name.packed() + self.authorization.packed() + self.data.packed());
                }
                return Err(e);
            },
            Ok(()) => {},
        }
        proof {
            lemma_written_concat(buf0, start, self.account.packed() + self.name.packed() + self.authorization.packed(), self.data.packed());
        }
        proof {
            assert(self.account.packed() + self.name.packed() + self.authorization.packed() + self.data.packed() =~= self.packed());
        }
        *pos = p;
        Ok(())
    }
}

impl Packed for Extension {
    open spec fn packed(&self) -> Seq<u8> {
        self.kind.packed() + self.data.packed()
    }

    proof fn lemma_unique(a: Self, b: Self, bytes: Seq<u8>, pos: int) {
        let ghost mut q = pos;
        lemma_prefix_concat(a.kind.packed(), a.data.packed(), bytes, q);
        lemma_prefix_concat(b.kind.packed(), b.data.packed(), bytes, q);
        <u16 as Packed>::lemma_unique(a.kind, b.kind, bytes, q);
        q = q + a.kind.packed().len();
        <Vec<u8> as Packed>::lemma_unique(a.data, b.data, bytes, q);
    }

    open spec fn same_value(&self, other: &Self) -> bool {
        &&& self.kind.same_value(&other.kind)
        &&& self.data.same_value(&other.data)
    }

    proof fn lemma_injective(a: Self, b: Self) {
        let bytes = a.packed();
        let pos: int = 0;
        assert(bytes.subrange(0, bytes.len() as int) =~= bytes);
        let ghost mut q = pos;
        lemma_prefix_concat(a.kind.packed(), a.data.packed(), bytes, q);
        lemma_prefix_concat(b.kind.packed(), b.data.packed(), bytes, q);
        <u16 as Packed>::lemma_unique(a.kind, b.kind, bytes, q);
        <u16 as Packed>::lemma_injective(a.kind, b.kind);
        q = q + a.kind.packed().len();
        <Vec<u8> as Packed>::lemma_unique(a.data, b.data, bytes, q);
        <Vec<u8> as Packed>::lemma_injective(a.data, b.data);
    }

    fn num_bytes(&self) -> (n: usize) {
        self.kind.num_bytes() + self.data.num_bytes()
    }

    fn read(bytes: &[u8], pos: &mut usize) -> (r: Result<Self, ReadError>) {
        let mut p = *pos;
        let ghost q0: int = p as int;
        let x0 = match <u16 as Packed>::read(bytes, &mut p) {
            Ok(x) => x,
            Err(e) => {
                proof {
                    assert forall|v: Extension| !prefix_at(#[trigger] v.packed(), bytes@, *old(pos) as int) by {
                        if prefix_at(v.packed(), bytes@, *old(pos) as int) {
                            lemma_prefix_concat(v.kind.packed(), v.data.packed(), bytes@, q0);
                        }
                    }
                }
                return Err(e);
            },
        };
        let ghost q1: int = p as int;
        let x1 = match <Vec<u8> as Packed>::read(bytes, &mut p) {
            Ok(x) => x,
            Err(e) => {
                proof {
                    assert forall|v: Extension| !prefix_at(#[trigger] v.packed(), bytes@, *old(pos) as int) by {
                        if prefix_at(v.packed(), bytes@, *old(pos) as int) {
                            lemma_prefix_concat(v.kind.packed(), v.data.packed(), bytes@, q0);
                            <u16 as Packed>::lemma_unique(v.kind, x0, bytes@, q0);
                        }
                    }
                }
                return Err(e);
            },
        };
        let v = Extension { kind: x0, data: x1 };
        proof {
            lemma_prefix_concat(v.kind.packed(), v.data.packed(), bytes@, q0);
        }
        *pos = p;
        Ok(v)
    }

    fn write(&self, bytes: &mut [u8], pos: &mut usize) -> (r: Result<(), WriteError>) {
        let mut p = *pos;
        let ghost start = *pos as int;
        let ghost buf0 = bytes@;
        match self.kind.write(bytes, &mut p) {
            Err(e) => {
                proof {
                    assert(self.packed() =~= self.kind.packed() + (self.data.packed()));
                }
                return Err(e);
            },
            Ok(()) => {},
        }
        match self.data.write(bytes, &mut p) {
            Err(e) => {
                proof {
                    assert(self.packed() =~= self.kind.packed() + self.data.packed());
                }
                return Err(e);
            },
            Ok(()) => {},
        }
        proof {
            lemma_written_concat(buf0, start, self.kind.packed(), self.data.packed());
        }
        proof {
            assert(self.kind.packed() + self.data.packed() =~= self.packed());
        }
        *pos = p;
        Ok(())
    }
}

impl Packed for Transaction {
    open spec fn packed(&self) -> Seq<u8> {
        self.header.packed() + (self.context_free_actions.packed() + (self.actions.packed() + self.transaction_extensions.packed()))
    }

    proof fn lemma_unique(a: Self, b: Self, bytes: Seq<u8>, pos: int) {
        let ghost mut q = pos;
        lemma_prefix_concat(a.header.packed(), a.context_free_actions.packed() + (a.actions.packed() + a.transaction_extensions.packed()), bytes, q);
        lemma_prefix_concat(b.header.packed(), b.context_free_actions.packed() + (b.actions.packed() + b.transaction_extensions.packed()), bytes, q);
        <TransactionHeader as Packed>::lemma_unique(a.header, b.header, bytes, q);
        q = q + a.header.packed().len();
        lemma_prefix_concat(a.context_free_actions.packed(), a.actions.packed() + a.transaction_extensions.packed(), bytes, q);
        lemma_prefix_concat(b.context_free_actions.packed(), b.actions.packed() + b.transaction_extensions.packed(), bytes, q);
        <Vec<Action<Vec<u8>>> as Packed>::lemma_unique(a.context_free_actions, b.context_free_actions, bytes, q);
        q = q + a.context_free_actions.packed().len();
        lemma_prefix_concat(a.actions.packed(), a.transaction_extensions.packed(), bytes, q);
        lemma_prefix_concat(b.actions.packed(), b.transaction_extensions.packed(), bytes, q);
        <Vec<Action<Vec<u8>>> as Packed>::lemma_unique(a.actions, b.actions, bytes, q);
        q = q + a.actions.packed().len();
        <Vec<Extension> as Packed>::lemma_unique(a.transaction_extensions, b.transaction_extensions, bytes, q);
    }

    open spec fn same_value(&self, other: &Self) -> bool {
        &&& self.header.same_value(&other.header)
        &&& self.context_free_actions.same_value(&other.context_free_actions)
        &&& self.actions.same_value(&other.actions)
        &&& self.transaction_extensions.same_value(&other.transaction_extensions)
    }

    proof fn lemma_injective(a: Self, b: Self) {
        let bytes = a.packed();
        let pos: int = 0;
        assert(bytes.subrange(0, bytes.len() as int) =~= bytes);
        let ghost mut q = pos;
        lemma_prefix_concat(a.header.packed(), a.context_free_actions.packed() + (a.actions.packed() + a.transaction_extensions.packed()), bytes, q);
        lemma_prefix_concat(b.header.packed(), b.context_free_actions.packed() + (b.actions.packed() + b.transaction_extensions.packed()), bytes, q);
        <TransactionHeader as Packed>::lemma_unique(a.header, b.header, bytes, q);
        <TransactionHeader as Packed>::lemma_injective(a.header, b.header);
        q = q + a.header.packed().len();
        lemma_prefix_concat(a.context_free_actions.packed(), a.actions.packed() + a.transaction_extensions.packed(), bytes, q);
        lemma_prefix_concat(b.context_free_actions.packed(), b.actions.packed() + b.transaction_extensions.packed(), bytes, q);
        <Vec<Action<Vec<u8>>> as Packed>::lemma_unique(a.context_free_actions, b.context_free_actions, bytes, q);
        <Vec<Action<Vec<u8>>> as Packed>::lemma_injective(a.context_free_actions, b.context_free_actions);
        q = q + a.context_free_actions.packed().len();
        lemma_prefix_concat(a.actions.packed(), a.transaction_extensions.packed(), bytes, q);
        lemma_prefix_concat(b.actions.packed(), b.transaction_extensions.packed(), bytes, q);
        <Vec<Action<Vec<u8>>> as Packed>::lemma_unique(a.actions, b.actions, bytes, q);
        <Vec<Action<Vec<u8>>> as Packed>::lemma_injective(a.actions, b.actions);
        q = q + a.actions.packed().len();
        <Vec<Extension> as Packed>::lemma_unique(a.transaction_extensions, b.transaction_extensions, bytes, q);
        <Vec<Extension> as Packed>::lemma_injective(a.transaction_extensions, b.transaction_extensions);
    }

    fn num_bytes(&self) -> (n: usize) {
        self.header.num_bytes() + self.context_free_actions.num_bytes() + self.actions.num_bytes() + self.transaction_extensions.num_bytes()
    }

    fn read(bytes: &[u8], pos: &mut usize) -> (r: Result<Self, ReadError>) {
        let mut p = *pos;
        let ghost q0: int = p as int;
        let x0 = match <TransactionHeader as Packed>::read(bytes, &mut p) {
            Ok(x) => x,
            Err(e) => {
                proof {
                    assert forall|v: Transaction| !prefix_at(#[trigger] v.packed(), bytes@, *old(pos) as int) by {
                        if prefix_at(v.packed(), bytes@, *old(pos) as int) {
                            lemma_prefix_concat(v.header.packed(), v.context_free_actions.packed() + (v.actions.packed() + v.transaction_extensions.packed()), bytes@, q0);
                        }
                    }
                }
                return Err(e);
            },
        };
        let ghost q1: int = p as int;
        let x1 = match <Vec<Action<Vec<u8>>> as Packed>::read(bytes, &mut p) {
            Ok(x) => x,
            Err(e) => {
                proof {
                    assert forall|v: Transaction| !prefix_at(#[trigger] v.packed(), bytes@, *old(pos) as int) by {
                        if prefix_at(v.packed(), bytes@, *old(pos) as int) {
                            lemma_prefix_concat(v.header.packed(), v.context_free_actions.packed() + (v.actions.packed() + v.transaction_extensions.packed()), bytes@, q0);
                            <TransactionHeader as Packed>::lemma_unique(v.header, x0, bytes@, q0);
                            lemma_prefix_concat(v.context_free_actions.packed(), v.actions.packed() + v.transaction_extensions.packed(), bytes@, q1);
                        }
                    }
                }
                return Err(e);
            },
        };
        let ghost q2: int = p as int;
        let x2 = match <Vec<Action<Vec<u8>>> as Packed>::read(bytes, &mut p) {
            Ok(x) => x,
            Err(e) => {
                proof {
                    assert forall|v: Transaction| !prefix_at(#[trigger] v.packed(), bytes@, *old(pos) as int) by {
                        if prefix_at(v.packed(), bytes@, *old(pos) as int) {
                            lemma_prefix_concat(v.header.packed(), v.context_free_actions.packed() + (v.actions.packed() + v.transaction_extensions.packed()), bytes@, q0);
                            <TransactionHeader as Packed>::lemma_unique(v.header, x0, bytes@, q0);
                            lemma_prefix_concat(v.context_free_actions.packed(), v.actions.packed() + v.transaction_extensions.packed(), bytes@, q1);
                            <Vec<Action<Vec<u8>>> as Packed>::lemma_unique(v.context_free_actions, x1, bytes@, q1);
                            lemma_prefix_concat(v.actions.packed(), v.transaction_extensions.packed(), bytes@, q2);
                        }
                    }
                }
                return Err(e);
            },
        };
        let ghost q3: int = p as int;
        let x3 = match <Vec<Extension> as Packed>::read(bytes, &mut p) {
            Ok(x) => x,
            Err(e) => {
                proof {
                    assert forall|v: Transaction| !prefix_at(#[trigger] v.packed(), bytes@, *old(pos) as int) by {
                        if prefix_at(v.packed(), bytes@, *old(pos) as int) {
                            lemma_prefix_concat(v.header.packed(), v.context_free_actions.packed() + (v.actions.packed() + v.transaction_extensions.packed()), bytes@, q0);
                            <TransactionHeader as Packed>::lemma_unique(v.header, x0, bytes@, q0);
                            lemma_prefix_concat(v.context_free_actions.packed(), v.actions.packed() + v.transaction_extensions.packed(), bytes@, q1);
                            <Vec<Action<Vec<u8>>> as Packed>::lemma_unique(v.context_free_actions, x1, bytes@, q1);
                            lemma_prefix_concat(v.actions.packed(), v.transaction_extensions.packed(), bytes@, q2);
                            <Vec<Action<Vec<u8>>> as Packed>::lemma_unique(v.actions, x2, bytes@, q2);
                        }
                    }
                }
                return Err(e);
            },
        };
        let v = Transaction { header: x0, context_free_actions: x1, actions: x2, transaction_extensions: x3 };
        proof {
            lemma_prefix_concat(v.actions.packed(), v.transaction_extensions.packed(), bytes@, q2);
            lemma_prefix_concat(v.context_free_actions.packed(), v.actions.packed() + v.transaction_extensions.packed(), bytes@, q1);
            lemma_prefix_concat(v.header.packed(), v.context_free_actions.packed() + (v.actions.packed() + v.transaction_extensions.packed()), bytes@, q0);
        }
        *pos = p;
        Ok(v)
    }

    fn write(&self, bytes: &mut [u8], pos: &mut usize) -> (r: Result<(), WriteError>) {
        let mut p = *pos;
        let ghost start = *pos as int;
        let ghost buf0 = bytes@;
        match self.header.write(bytes, &mut p) {
            Err(e) => {
                proof {
                    assert(self.packed() =~= self.header.packed() + (self.context_free_actions.packed() + (self.actions.packed() + self.transaction_extensions.packed())));
                }
                return Err(e);
            },
            Ok(()) => {},
        }
        match self.context_free_actions.write(bytes, &mut p) {
            Err(e) => {
                proof {
                    assert(self.packed() =~= self.header.packed() + self.context_free_actions.packed() + (self.actions.packed() + self.transaction_extensions.packed()));
                }
                return Err(e);
            },
            Ok(()) => {},
        }
        proof {
            lemma_written_concat(buf0, start, self.header.packed(), self.context_free_actions.packed());
        }
        match self.actions.write(bytes, &mut p) {
            Err(e) => {
                proof {
                    assert(self.packed() =~= self.header.packed() + self.context_free_actions.packed() + self.actions.packed() + (self.transaction_extensions.packed()));
                }
                return Err(e);
            },
            Ok(()) => {},
        }
        proof {
            lemma_written_concat(buf0, start, self.header.packed() + self.context_free_actions.packed(), self.actions.packed());
        }
        match self.transaction_extensions.write(bytes, &mut p) {
            Err(e) => {
                proof {
                    assert(self.packed() =~= self.header.packed() + self.context_free_actions.packed() + self.actions.packed() + self.transaction_extensions.packed());
                }
                return Err(e);
            },
            Ok(()) => {},
        }
        proof {
            lemma_written_concat(buf0, start, self.header.packed() + self.context_free_actions.packed() + self.actions.packed(), self.transaction_extensions.packed());
        }
        proof {
            assert(self.header.packed() + self.context_free_actions.packed() + self.actions.packed() + self.transaction_extensions.packed() =~= self.packed());
        }
        *pos = p;
        Ok(())
    }
}

/// `TransactionHeader` is encoded as its fields, one after the other, in the order
/// `expiration`, `ref_block_num`, `ref_block_prefix`, `max_net_usage_words`, `max_cpu_usage`, `delay_sec`.
pub proof fn lemma_transaction_header_layout(a: TransactionHeader)
    ensures
        a.packed() == a.expiration.packed() + a.ref_block_num.packed() + a.ref_block_prefix.packed() + a.max_net_usage_words.packed() + a.max_cpu_usage.packed() + a.delay_sec.packed(),
{
    assert(a.packed() =~= a.expiration.packed() + a.ref_block_num.packed() + a.ref_block_prefix.packed() + a.max_net_usage_words.packed() + a.max_cpu_usage.packed() + a.delay_sec.packed());
}

/// `Action<Vec<u8>>` is encoded as its fields, one after the other, in the order
/// `account`, `name`, `authorization`, `data`.
pub proof fn lemma_action_bytes_layout(a: Action<Vec<u8>>)
    ensures
        a.packed() == a.account.packed() + a.name.packed() + a.authorization.packed() + a.data.packed(),
{
    assert(a.packed() =~= a.account.packed() + a.name.packed() + a.authorization.packed() + a.data.packed());
}

/// `Extension` is encoded as its fields, one after the other, in the order
/// `kind`, `data`.
pub proof fn lemma_extension_layout(a: Extension)
    ensures
        a.packed() == a.kind.packed() + a.data.packed(),
{
    assert(a.packed() =~= a.kind.packed() + a.data.packed());
}

/// `Transaction` is encoded as its fields, one after the other, in the order
/// `header`, `context_free_actions`, `actions`, `transaction_extensions`.
pub proof fn lemma_transaction_layout(a: Transaction)
    ensures
        a.packed() == a.header.packed() + a.context_free_actions.packed() + a.actions.packed() + a.transaction_extensions.packed(),
{
    assert(a.packed() =~= a.header.packed() + a.context_free_actions.packed() + a.actions.packed() + a.transaction_extensions.packed());
}

} // verus!
