use vstd::prelude::*;

use crate::codec::{lemma_prefix_concat, lemma_written_concat, prefix_at, Packed, ReadError, WriteError};
use crate::keys::{FixedBytes, PublicKey};
use crate::name::Name;
use crate::time::BlockTimestamp;

verus! {

/// An account and one of its permissions, such as `alice@active`.
#[derive(Debug, Clone, Copy, PartialEq, Eq, Structural)]
pub struct PermissionLevel {
    pub actor: Name,
    pub permission: Name,
}

impl PermissionLevel {
    /// The permission `permission` of `actor`.
    pub fn new(actor: Name, permission: Name) -> (r: Self)
        ensures
            r.actor == actor,
            r.permission == permission,
    {
        PermissionLevel { actor, permission }
    }
}

/// A key and the weight its signature carries.
#[derive(Debug, Clone, Copy)]
pub struct KeyWeight {
    pub key: PublicKey,
    pub weight: u16,
}

/// A permission and the weight its approval carries.
#[derive(Debug, Clone, Copy, PartialEq, Eq, Structural)]
pub struct PermissionLevelWeight {
    pub permission: PermissionLevel,
    pub weight: u16,
}

/// A weighted threshold over keys and permissions.
#[derive(Debug, Clone)]
pub struct Authority {
    pub threshold: u32,
    pub keys: Vec<KeyWeight>,
    pub accounts: Vec<PermissionLevelWeight>,
}

/// The header of a block.
#[derive(Debug, Clone, Copy)]
pub struct BlockHeader {
    pub timestamp: BlockTimestamp,
    pub producer: Name,
    pub confirmed: u16,
    pub previous: FixedBytes<32>,
    pub transaction_mroot: FixedBytes<32>,
    pub action_mroot: FixedBytes<32>,
}

/// The keys that may sign a producer's blocks, with the weight they must reach.
#[derive(Debug, Clone)]
pub struct BlockSigningAuthority {
    pub variant: u8,
    pub threshold: u32,
    pub keys: Vec<KeyWeight>,
}

/// The sum of the weights of the keys.
pub open spec fn weight_total(keys: Seq<KeyWeight>) -> int
    decreases keys.len(),
{
    if keys.len() == 0 {
        0
    } else {
        weight_total(keys.drop_last()) + keys.last().weight
    }
}

/// No key occurs twice.
pub open spec fn keys_distinct(keys: Seq<KeyWeight>) -> bool {
    forall|i: int, j: int|
        0 <= i < j < keys.len() ==> keys[i].key.0.0@ != keys[j].key.0.0@
}

/// A signing authority is valid when its keys are distinct, its threshold is
/// positive, and its keys together weigh at least the threshold.
pub open spec fn spec_authority_valid(threshold: u32, keys: Seq<KeyWeight>) -> bool {
    &&& keys_distinct(keys)
    &&& threshold > 0
    &&& weight_total(keys) >= threshold
}

impl BlockSigningAuthority {
    /// The authority of the given threshold over the given keys.
    pub fn new(threshold: u32, keys: Vec<KeyWeight>) -> (r: Self)
        ensures
            r.variant == 0,
            r.threshold == threshold,
            r.keys@ == keys@,
    {
        BlockSigningAuthority { variant: 0, threshold, keys }
    }

    /// Whether the keys are distinct, the threshold is positive and the keys
    /// can reach it.
    pub fn is_valid(&self) -> (r: bool)
        ensures
            r == spec_authority_valid(self.threshold, self.keys@),
    {
        let n = self.keys.len();
        let mut sum_weights: u32 = 0;
        let mut i: usize = 0;
        while i < n
            invariant
                n == self.keys@.len(),
                i <= n,
                sum_weights == if weight_total(self.keys@.subrange(0, i as int)) < u32::MAX {
                    weight_total(self.keys@.subrange(0, i as int))
                } else {
                    u32::MAX as int
                },
            decreases n - i,
        {
            let w = self.keys[i].weight;
            proof {
                let s = self.keys@.subrange(0, i + 1);
                assert(s.drop_last() =~= self.keys@.subrange(0, i as int));
                lemma_weight_total_nonneg(self.keys@.subrange(0, i as int));
            }
            if u32::MAX - sum_weights <= w as u32 {
                sum_weights = u32::MAX;
            } else {
                sum_weights = sum_weights + w as u32;
            }
            i = i + 1;
        }
        assert(self.keys@.subrange(0, n as int) =~= self.keys@);
        let mut distinct = true;
        let mut a: usize = 0;
        while a < n
            invariant
                n == self.keys@.len(),
                a <= n,
                distinct == forall|x: int, y: int|
                    0 <= x < y < n && x < a ==> self.keys@[x].key.0.0@ != self.keys@[y].key.0.0@,
            decreases n - a,
        {
            let mut b: usize = a + 1;
            while b < n
                invariant
                    n == self.keys@.len(),
                    a < n,
                    a + 1 <= b <= n,
                    distinct == ((forall|x: int, y: int|
                        0 <= x < y < n && x < a ==> self.keys@[x].key.0.0@ != self.keys@[y].key.0.0@)
                        && forall|y: int| a < y < b ==> self.keys@[a as int].key.0.0@ != self.keys@[y].key.0.0@),
                decreases n - b,
            {
                if self.keys[a].key.same_key(&self.keys[b].key) {
                    distinct = false;
                }
                b = b + 1;
            }
            a = a + 1;
        }
        if !distinct {
            return false;
        }
        if self.threshold == 0 {
            return false;
        }
        if sum_weights < self.threshold {
            return false;
        }
        true
    }
}

proof fn lemma_weight_total_nonneg(keys: Seq<KeyWeight>)
    ensures
        weight_total(keys) >= 0,
    decreases keys.len(),
{
    if keys.len() > 0 {
        lemma_weight_total_nonneg(keys.drop_last());
    }
}

/// A single key of weight 1 with threshold 1, as a producer key is turned
/// into a signing authority, always makes a valid authority.
pub proof fn lemma_single_key_authority_valid(keys: Seq<KeyWeight>)
    requires
        keys.len() == 1,
        keys[0].weight == 1,
    ensures
        spec_authority_valid(1, keys),
{
    assert(keys.drop_last().len() == 0);
    assert(weight_total(keys) == weight_total(keys.drop_last()) + keys.last().weight);
}

/// The signing authority made of one key of weight 1, with threshold 1.
pub fn convert_to_block_signing_authority(producer_key: &PublicKey) -> (r: BlockSigningAuthority)
    ensures
        r.variant == 0,
        r.threshold == 1,
        r.keys@.len() == 1,
        r.keys@[0].key.0.0@ == producer_key.0.0@,
        r.keys@[0].weight == 1,
{
    let mut keys: Vec<KeyWeight> = Vec::new();
    keys.push(KeyWeight { key: *producer_key, weight: 1 });
    BlockSigningAuthority::new(1, keys)
}


impl Packed for PermissionLevel {
    open spec fn packed(&self) -> Seq<u8> {
        self.actor.packed() + self.permission.packed()
    }

    proof fn lemma_unique(a: Self, b: Self, bytes: Seq<u8>, pos: int) {
        let ghost mut q = pos;
        lemma_prefix_concat(a.actor.packed(), a.permission.packed(), bytes, q);
        lemma_prefix_concat(b.actor.packed(), b.permission.packed(), bytes, q);
        <Name as Packed>::lemma_unique(a.actor, b.actor, bytes, q);
        q = q + a.actor.packed().len();
        <Name as Packed>::lemma_unique(a.permission, b.permission, bytes, q);
    }

    open spec fn same_value(&self, other: &Self) -> bool {
        &&& self.actor.same_value(&other.actor)
        &&& self.permission.same_value(&other.permission)
    }

    proof fn lemma_injective(a: Self, b: Self) {
        let bytes = a.packed();
        let pos: int = 0;
        assert(bytes.subrange(0, bytes.len() as int) =~= bytes);
        let ghost mut q = pos;
        lemma_prefix_concat(a.actor.packed(), a.permission.packed(), bytes, q);
        lemma_prefix_concat(b.actor.packed(), b.permission.packed(), bytes, q);
        <Name as Packed>::lemma_unique(a.actor, b.actor, bytes, q);
        <Name as Packed>::lemma_injective(a.actor, b.actor);
        q = q + a.actor.packed().len();
        <Name as Packed>::lemma_unique(a.permission, b.permission, bytes, q);
        <Name as Packed>::lemma_injective(a.permission, b.permission);
    }

    fn num_bytes(&self) -> (n: usize) {
        self.actor.num_bytes() + self.permission.num_bytes()
    }

    fn read(bytes: &[u8], pos: &mut usize) -> (r: Result<Self, ReadError>) {
        let mut p = *pos;
        let ghost q0: int = p as int;
        let x0 = match <Name as Packed>::read(bytes, &mut p) {
            Ok(x) => x,
            Err(e) => {
                proof {
                    assert forall|v: PermissionLevel| !prefix_at(#[trigger] v.packed(), bytes@, *old(pos) as int) by {
                        if prefix_at(v.packed(), bytes@, *old(pos) as int) {
                            lemma_prefix_concat(v.actor.packed(), v.permission.packed(), bytes@, q0);
                        }
                    }
                }
                return Err(e);
            },
        };
        let ghost q1: int = p as int;
        let x1 = match <Name as Packed>::read(bytes, &mut p) {
            Ok(x) => x,
            Err(e) => {
                proof {
                    assert forall|v: PermissionLevel| !prefix_at(#[trigger] v.packed(), bytes@, *old(pos) as int) by {
                        if prefix_at(v.packed(), bytes@, *old(pos) as int) {
                            lemma_prefix_concat(v.actor.packed(), v.permission.packed(), bytes@, q0);
                            <Name as Packed>::lemma_unique(v.actor, x0, bytes@, q0);
                        }
                    }
                }
                return Err(e);
            },
        };
        let v = PermissionLevel { actor: x0, permission: x1 };
        proof {
            lemma_prefix_concat(v.actor.packed(), v.permission.packed(), bytes@, q0);
        }
        *pos = p;
        Ok(v)
    }

    fn write(&self, bytes: &mut [u8], pos: &mut usize) -> (r: Result<(), WriteError>) {
        proof {
            assert(self.packed().len() <= 16);
        }
        let n = self.num_bytes();
        let len = bytes.len();
        if *pos > len || n > len - *pos {
            return Err(WriteError::NotEnoughSpace);
        }
        let mut p = *pos;
        let ghost start = *pos as int;
        let ghost buf0 = bytes@;
        let _ = self.actor.write(bytes, &mut p);
        let _ = self.permission.write(bytes, &mut p);
        proof {
            lemma_written_concat(buf0, start, self.actor.packed(), self.permission.packed());
        }
        proof {
            assert(self.actor.packed() + self.permission.packed() =~= self.packed());
        }
        *pos = p;
        Ok(())
    }
}

impl Packed for KeyWeight {
    open spec fn packed(&self) -> Seq<u8> {
        self.key.packed() + self.weight.packed()
    }

    proof fn lemma_unique(a: Self, b: Self, bytes: Seq<u8>, pos: int) {
        let ghost mut q = pos;
        lemma_prefix_concat(a.key.packed(), a.weight.packed(), bytes, q);
        lemma_prefix_concat(b.key.packed(), b.weight.packed(), bytes, q);
        <PublicKey as Packed>::lemma_unique(a.key, b.key, bytes, q);
        q = q + a.key.packed().len();
        <u16 as Packed>::lemma_unique(a.weight, b.weight, bytes, q);
    }

    open spec fn same_value(&self, other: &Self) -> bool {
        &&& self.key.same_value(&other.key)
        &&& self.weight.same_value(&other.weight)
    }

    proof fn lemma_injective(a: Self, b: Self) {
        let bytes = a.packed();
        let pos: int = 0;
        assert(bytes.subrange(0, bytes.len() as int) =~= bytes);
        let ghost mut q = pos;
        lemma_prefix_concat(a.key.packed(), a.weight.packed(), bytes, q);
        lemma_prefix_concat(b.key.packed(), b.weight.packed(), bytes, q);
        <PublicKey as Packed>::lemma_unique(a.key, b.key, bytes, q);
        <PublicKey as Packed>::lemma_injective(a.key, b.key);
        q = q + a.key.packed().len();
        <u16 as Packed>::lemma_unique(a.weight, b.weight, bytes, q);
        <u16 as Packed>::lemma_injective(a.weight, b.weight);
    }

    fn num_bytes(&self) -> (n: usize) {
        self.key.num_bytes() + self.weight.num_bytes()
    }

    fn read(bytes: &[u8], pos: &mut usize) -> (r: Result<Self, ReadError>) {
        let mut p = *pos;
        let ghost q0: int = p as int;
        let x0 = match <PublicKey as Packed>::read(bytes, &mut p) {
            Ok(x) => x,
            Err(e) => {
                proof {
                    assert forall|v: KeyWeight| !prefix_at(#[trigger] v.packed(), bytes@, *old(pos) as int) by {
                        if prefix_at(v.packed(), bytes@, *old(pos) as int) {
                            lemma_prefix_concat(v.key.packed(), v.weight.packed(), bytes@, q0);
                        }
                    }
                }
                return Err(e);
            },
        };
        let ghost q1: int = p as int;
        let x1 = match <u16 as Packed>::read(bytes, &mut p) {
            Ok(x) => x,
            Err(e) => {
                proof {
                    assert forall|v: KeyWeight| !prefix_at(#[trigger] v.packed(), bytes@, *old(pos) as int) by {
                        if prefix_at(v.packed(), bytes@, *old(pos) as int) {
                            lemma_prefix_concat(v.key.packed(), v.weight.packed(), bytes@, q0);
                            <PublicKey as Packed>::lemma_unique(v.key, x0, bytes@, q0);
                        }
                    }
                }
                return Err(e);
            },
        };
        let v = KeyWeight { key: x0, weight: x1 };
        proof {
            lemma_prefix_concat(v.key.packed(), v.weight.packed(), bytes@, q0);
        }
        *pos = p;
        Ok(v)
    }

    fn write(&self, bytes: &mut [u8], pos: &mut usize) -> (r: Result<(), WriteError>) {
        proof {
            assert(self.packed().len() <= 36);
        }
        let n = self.num_bytes();
        let len = bytes.len();
        if *pos > len || n > len - *pos {
            return Err(WriteError::NotEnoughSpace);
        }
        let mut p = *pos;
        let ghost start = *pos as int;
        let ghost buf0 = bytes@;
        let _ = self.key.write(bytes, &mut p);
        let _ = self.weight.write(bytes, &mut p);
        proof {
            lemma_written_concat(buf0, start, self.key.packed(), self.weight.packed());
        }
        proof {
            assert(self.key.packed() + self.weight.packed() =~= self.packed());
        }
        *pos = p;
        Ok(())
    }
}

impl Packed for PermissionLevelWeight {
    open spec fn packed(&self) -> Seq<u8> {
        self.permission.packed() + self.weight.packed()
    }

    proof fn lemma_unique(a: Self, b: Self, bytes: Seq<u8>, pos: int) {
        let ghost mut q = pos;
        lemma_prefix_concat(a.permission.packed(), a.weight.packed(), bytes, q);
        lemma_prefix_concat(b.permission.packed(), b.weight.packed(), bytes, q);
        <PermissionLevel as Packed>::lemma_unique(a.permission, b.permission, bytes, q);
        q = q + a.permission.packed().len();
        <u16 as Packed>::lemma_unique(a.weight, b.weight, bytes, q);
    }

    open spec fn same_value(&self, other: &Self) -> bool {
        &&& self.permission.same_value(&other.permission)
        &&& self.weight.same_value(&other.weight)
    }

    proof fn lemma_injective(a: Self, b: Self) {
        let bytes = a.packed();
        let pos: int = 0;
        assert(bytes.subrange(0, bytes.len() as int) =~= bytes);
        let ghost mut q = pos;
        lemma_prefix_concat(a.permission.packed(), a.weight.packed(), bytes, q);
        lemma_prefix_concat(b.permission.packed(), b.weight.packed(), bytes, q);
        <PermissionLevel as Packed>::lemma_unique(a.permission, b.permission, bytes, q);
        <PermissionLevel as Packed>::lemma_injective(a.permission, b.permission);
        q = q + a.permission.packed().len();
        <u16 as Packed>::lemma_unique(a.weight, b.weight, bytes, q);
        <u16 as Packed>::lemma_injective(a.weight, b.weight);
    }

    fn num_bytes(&self) -> (n: usize) {
        self.permission.num_bytes() + self.weight.num_bytes()
    }

    fn read(bytes: &[u8], pos: &mut usize) -> (r: Result<Self, ReadError>) {
        let mut p = *pos;
        let ghost q0: int = p as int;
        let x0 = match <PermissionLevel as Packed>::read(bytes, &mut p) {
            Ok(x) => x,
            Err(e) => {
                proof {
                    assert forall|v: PermissionLevelWeight| !prefix_at(#[trigger] v.packed(), bytes@, *old(pos) as int) by {
                        if prefix_at(v.packed(), bytes@, *old(pos) as int) {
                            lemma_prefix_concat(v.permission.packed(), v.weight.packed(), bytes@, q0);
                        }
                    }
                }
                return Err(e);
            },
        };
        let ghost q1: int = p as int;
        let x1 = match <u16 as Packed>::read(bytes, &mut p) {
            Ok(x) => x,
            Err(e) => {
                proof {
                    assert forall|v: PermissionLevelWeight| !prefix_at(#[trigger] v.packed(), bytes@, *old(pos) as int) by {
                        if prefix_at(v.packed(), bytes@, *old(pos) as int) {
                            lemma_prefix_concat(v.permission.packed(), v.weight.packed(), bytes@, q0);
                            <PermissionLevel as Packed>::lemma_unique(v.permission, x0, bytes@, q0);
                        }
                    }
                }
                return Err(e);
            },
        };
        let v = PermissionLevelWeight { permission: x0, weight: x1 };
        proof {
            lemma_prefix_concat(v.permission.packed(), v.weight.packed(), bytes@, q0);
        }
        *pos = p;
        Ok(v)
    }

    fn write(&self, bytes: &mut [u8], pos: &mut usize) -> (r: Result<(), WriteError>) {
        proof {
            assert(self.packed().len() <= 18);
        }
        let n = self.num_bytes();
        let len = bytes.len();
        if *pos > len || n > len - *pos {
            return Err(WriteError::NotEnoughSpace);
        }
        let mut p = *pos;
        let ghost start = *pos as int;
        let ghost buf0 = bytes@;
        let _ = self.permission.write(bytes, &mut p);
        let _ = self.weight.write(bytes, &mut p);
        proof {
            lemma_written_concat(buf0, start, self.permission.packed(), self.weight.packed());
        }
        proof {
            assert(self.permission.packed() + self.weight.packed() =~= self.packed());
        }
        *pos = p;
        Ok(())
    }
}

impl Packed for BlockHeader {
    open spec fn packed(&self) -> Seq<u8> {
        self.timestamp.packed() + (self.producer.packed() + (self.confirmed.packed() + (self.previous.packed() + (self.transaction_mroot.packed() + self.action_mroot.packed()))))
    }

    proof fn lemma_unique(a: Self, b: Self, bytes: Seq<u8>, pos: int) {
        let ghost mut q = pos;
        lemma_prefix_concat(a.timestamp.packed(), a.producer.packed() + (a.confirmed.packed() + (a.previous.packed() + (a.transaction_mroot.packed() + a.action_mroot.packed()))), bytes, q);
        lemma_prefix_concat(b.timestamp.packed(), b.producer.packed() + (b.confirmed.packed() + (b.previous.packed() + (b.transaction_mroot.packed() + b.action_mroot.packed()))), bytes, q);
        <BlockTimestamp as Packed>::lemma_unique(a.timestamp, b.timestamp, bytes, q);
        q = q + a.timestamp.packed().len();
        lemma_prefix_concat(a.producer.packed(), a.confirmed.packed() + (a.previous.packed() + (a.transaction_mroot.packed() + a.action_mroot.packed())), bytes, q);
        lemma_prefix_concat(b.producer.packed(), b.confirmed.packed() + (b.previous.packed() + (b.transaction_mroot.packed() + b.action_mroot.packed())), bytes, q);
        <Name as Packed>::lemma_unique(a.producer, b.producer, bytes, q);
        q = q + a.producer.packed().len();
        lemma_prefix_concat(a.confirmed.packed(), a.previous.packed() + (a.transaction_mroot.packed() + a.action_mroot.packed()), bytes, q);
        lemma_prefix_concat(b.confirmed.packed(), b.previous.packed() + (b.transaction_mroot.packed() + b.action_mroot.packed()), bytes, q);
        <u16 as Packed>::lemma_unique(a.confirmed, b.confirmed, bytes, q);
        q = q + a.confirmed.packed().len();
        lemma_prefix_concat(a.previous.packed(), a.transaction_mroot.packed() + a.action_mroot.packed(), bytes, q);
        lemma_prefix_concat(b.previous.packed(), b.transaction_mroot.packed() + b.action_mroot.packed(), bytes, q);
        <FixedBytes<32> as Packed>::lemma_unique(a.previous, b.previous, bytes, q);
        q = q + a.previous.packed().len();
        lemma_prefix_concat(a.transaction_mroot.packed(), a.action_mroot.packed(), bytes, q);
        lemma_prefix_concat(b.transaction_mroot.packed(), b.action_mroot.packed(), bytes, q);
        <FixedBytes<32> as Packed>::lemma_unique(a.transaction_mroot, b.transaction_mroot, bytes, q);
        q = q + a.transaction_mroot.packed().len();
        <FixedBytes<32> as Packed>::lemma_unique(a.action_mroot, b.action_mroot, bytes, q);
    }

    open spec fn same_value(&self, other: &Self) -> bool {
        &&& self.timestamp.same_value(&other.timestamp)
        &&& self.producer.same_value(&other.producer)
        &&& self.confirmed.same_value(&other.confirmed)
        &&& self.previous.same_value(&other.previous)
        &&& self.transaction_mroot.same_value(&other.transaction_mroot)
        &&& self.action_mroot.same_value(&other.action_mroot)
    }

    proof fn lemma_injective(a: Self, b: Self) {
        let bytes = a.packed();
        let pos: int = 0;
        assert(bytes.subrange(0, bytes.len() as int) =~= bytes);
        let ghost mut q = pos;
        lemma_prefix_concat(a.timestamp.packed(), a.producer.packed() + (a.confirmed.packed() + (a.previous.packed() + (a.transaction_mroot.packed() + a.action_mroot.packed()))), bytes, q);
        lemma_prefix_concat(b.timestamp.packed(), b.producer.packed() + (b.confirmed.packed() + (b.previous.packed() + (b.transaction_mroot.packed() + b.action_mroot.packed()))), bytes, q);
        <BlockTimestamp as Packed>::lemma_unique(a.timestamp, b.timestamp, bytes, q);
        <BlockTimestamp as Packed>::lemma_injective(a.timestamp, b.timestamp);
        q = q + a.timestamp.packed().len();
        lemma_prefix_concat(a.producer.packed(), a.confirmed.packed() + (a.previous.packed() + (a.transaction_mroot.packed() + a.action_mroot.packed())), bytes, q);
        lemma_prefix_concat(b.producer.packed(), b.confirmed.packed() + (b.previous.packed() + (b.transaction_mroot.packed() + b.action_mroot.packed())), bytes, q);
        <Name as Packed>::lemma_unique(a.producer, b.producer, bytes, q);
        <Name as Packed>::lemma_injective(a.producer, b.producer);
        q = q + a.producer.packed().len();
        lemma_prefix_concat(a.confirmed.packed(), a.previous.packed() + (a.transaction_mroot.packed() + a.action_mroot.packed()), bytes, q);
        lemma_prefix_concat(b.confirmed.packed(), b.previous.packed() + (b.transaction_mroot.packed() + b.action_mroot.packed()), bytes, q);
        <u16 as Packed>::lemma_unique(a.confirmed, b.confirmed, bytes, q);
        <u16 as Packed>::lemma_injective(a.confirmed, b.confirmed);
        q = q + a.confirmed.packed().len();
        lemma_prefix_concat(a.previous.packed(), a.transaction_mroot.packed() + a.action_mroot.packed(), bytes, q);
        lemma_prefix_concat(b.previous.packed(), b.transaction_mroot.packed() + b.action_mroot.packed(), bytes, q);
        <FixedBytes<32> as Packed>::lemma_unique(a.previous, b.previous, bytes, q);
        <FixedBytes<32> as Packed>::lemma_injective(a.previous, b.previous);
        q = q + a.previous.packed().len();
        lemma_prefix_concat(a.transaction_mroot.packed(), a.action_mroot.packed(), bytes, q);
        lemma_prefix_concat(b.transaction_mroot.packed(), b.action_mroot.packed(), bytes, q);
        <FixedBytes<32> as Packed>::lemma_unique(a.transaction_mroot, b.transaction_mroot, bytes, q);
        <FixedBytes<32> as Packed>::lemma_injective(a.transaction_mroot, b.transaction_mroot);
        q = q + a.transaction_mroot.packed().len();
        <FixedBytes<32> as Packed>::lemma_unique(a.action_mroot, b.action_mroot, bytes, q);
        <FixedBytes<32> as Packed>::lemma_injective(a.action_mroot, b.action_mroot);
    }

    fn num_bytes(&self) -> (n: usize) {
        self.timestamp.num_bytes() + self.producer.num_bytes() + self.confirmed.num_bytes() + self.previous.num_bytes() + self.transaction_mroot.num_bytes() + self.action_mroot.num_bytes()
    }

    fn read(bytes: &[u8], pos: &mut usize) -> (r: Result<Self, ReadError>) {
        let mut p = *pos;
        let ghost q0: int = p as int;
        let x0 = match <BlockTimestamp as Packed>::read(bytes, &mut p) {
            Ok(x) => x,
            Err(e) => {
                proof {
                    assert forall|v: BlockHeader| !prefix_at(#[trigger] v.packed(), bytes@, *old(pos) as int) by {
                        if prefix_at(v.packed(), bytes@, *old(pos) as int) {
                            lemma_prefix_concat(v.timestamp.packed(), v.producer.packed() + (v.confirmed.packed() + (v.previous.packed() + (v.transaction_mroot.packed() + v.action_mroot.packed()))), bytes@, q0);
                        }
                    }
                }
                return Err(e);
            },
        };
        let ghost q1: int = p as int;
        let x1 = match <Name as Packed>::read(bytes, &mut p) {
            Ok(x) => x,
            Err(e) => {
                proof {
                    assert forall|v: BlockHeader| !prefix_at(#[trigger] v.packed(), bytes@, *old(pos) as int) by {
                        if prefix_at(v.packed(), bytes@, *old(pos) as int) {
                            lemma_prefix_concat(v.timestamp.packed(), v.producer.packed() + (v.confirmed.packed() + (v.previous.packed() + (v.transaction_mroot.packed() + v.action_mroot.packed()))), bytes@, q0);
                            <BlockTimestamp as Packed>::lemma_unique(v.timestamp, x0, bytes@, q0);
                            lemma_prefix_concat(v.producer.packed(), v.confirmed.packed() + (v.previous.packed() + (v.transaction_mroot.packed() + v.action_mroot.packed())), bytes@, q1);
                        }
                    }
                }
                return Err(e);
            },
        };
        let ghost q2: int = p as int;
        let x2 = match <u16 as Packed>::read(bytes, &mut p) {
            Ok(x) => x,
            Err(e) => {
                proof {
                    assert forall|v: BlockHeader| !prefix_at(#[trigger] v.packed(), bytes@, *old(pos) as int) by {
                        if prefix_at(v.packed(), bytes@, *old(pos) as int) {
                            lemma_prefix_concat(v.timestamp.packed(), v.producer.packed() + (v.confirmed.packed() + (v.previous.packed() + (v.transaction_mroot.packed() + v.action_mroot.packed()))), bytes@, q0);
                            <BlockTimestamp as Packed>::lemma_unique(v.timestamp, x0, bytes@, q0);
                            lemma_prefix_concat(v.producer.packed(), v.confirmed.packed() + (v.previous.packed() + (v.transaction_mroot.packed() + v.action_mroot.packed())), bytes@, q1);
                            <Name as Packed>::lemma_unique(v.producer, x1, bytes@, q1);
                            lemma_prefix_concat(v.confirmed.packed(), v.previous.packed() + (v.transaction_mroot.packed() + v.action_mroot.packed()), bytes@, q2);
                        }
                    }
                }
                return Err(e);
            },
        };
        let ghost q3: int = p as int;
        let x3 = match <FixedBytes<32> as Packed>::read(bytes, &mut p) {
            Ok(x) => x,
            Err(e) => {
                proof {
                    assert forall|v: BlockHeader| !prefix_at(#[trigger] v.packed(), bytes@, *old(pos) as int) by {
                        if prefix_at(v.packed(), bytes@, *old(pos) as int) {
                            lemma_prefix_concat(v.timestamp.packed(), v.producer.packed() + (v.confirmed.packed() + (v.previous.packed() + (v.transaction_mroot.packed() + v.action_mroot.packed()))), bytes@, q0);
                            <BlockTimestamp as Packed>::lemma_unique(v.timestamp, x0, bytes@, q0);
                            lemma_prefix_concat(v.producer.packed(), v.confirmed.packed() + (v.previous.packed() + (v.transaction_mroot.packed() + v.action_mroot.packed())), bytes@, q1);
                            <Name as Packed>::lemma_unique(v.producer, x1, bytes@, q1);
                            lemma_prefix_concat(v.confirmed.packed(), v.previous.packed() + (v.transaction_mroot.packed() + v.action_mroot.packed()), bytes@, q2);
                            <u16 as Packed>::lemma_unique(v.confirmed, x2, bytes@, q2);
                            lemma_prefix_concat(v.previous.packed(), v.transaction_mroot.packed() + v.action_mroot.packed(), bytes@, q3);
                        }
                    }
                }
                return Err(e);
            },
        };
        let ghost q4: int = p as int;
        let x4 = match <FixedBytes<32> as Packed>::read(bytes, &mut p) {
            Ok(x) => x,
            Err(e) => {
                proof {
                    assert forall|v: BlockHeader| !prefix_at(#[trigger] v.packed(), bytes@, *old(pos) as int) by {
                        if prefix_at(v.packed(), bytes@, *old(pos) as int) {
                            lemma_prefix_concat(v.timestamp.packed(), v.producer.packed() + (v.confirmed.packed() + (v.previous.packed() + (v.transaction_mroot.packed() + v.action_mroot.packed()))), bytes@, q0);
                            <BlockTimestamp as Packed>::lemma_unique(v.timestamp, x0, bytes@, q0);
                            lemma_prefix_concat(v.producer.packed(), v.confirmed.packed() + (v.previous.packed() + (v.transaction_mroot.packed() + v.action_mroot.packed())), bytes@, q1);
                            <Name as Packed>::lemma_unique(v.producer, x1, bytes@, q1);
                            lemma_prefix_concat(v.confirmed.packed(), v.previous.packed() + (v.transaction_mroot.packed() + v.action_mroot.packed()), bytes@, q2);
                            <u16 as Packed>::lemma_unique(v.confirmed, x2, bytes@, q2);
                            lemma_prefix_concat(v.previous.packed(), v.transaction_mroot.packed() + v.action_mroot.packed(), bytes@, q3);
                            <FixedBytes<32> as Packed>::lemma_unique(v.previous, x3, bytes@, q3);
                            lemma_prefix_concat(v.transaction_mroot.packed(), v.action_mroot.packed(), bytes@, q4);
                        }
                    }
                }
                return Err(e);
            },
        };
        let ghost q5: int = p as int;
        let x5 = match <FixedBytes<32> as Packed>::read(bytes, &mut p) {
            Ok(x) => x,
            Err(e) => {
                proof {
                    assert forall|v: BlockHeader| !prefix_at(#[trigger] v.packed(), bytes@, *old(pos) as int) by {
                        if prefix_at(v.packed(), bytes@, *old(pos) as int) {
                            lemma_prefix_concat(v.timestamp.packed(), v.producer.packed() + (v.confirmed.packed() + (v.previous.packed() + (v.transaction_mroot.packed() + v.action_mroot.packed()))), bytes@, q0);
                            <BlockTimestamp as Packed>::lemma_unique(v.timestamp, x0, bytes@, q0);
                            lemma_prefix_concat(v.producer.packed(), v.confirmed.packed() + (v.previous.packed() + (v.transaction_mroot.packed() + v.action_mroot.packed())), bytes@, q1);
                            <Name as Packed>::lemma_unique(v.producer, x1, bytes@, q1);
                            lemma_prefix_concat(v.confirmed.packed(), v.previous.packed() + (v.transaction_mroot.packed() + v.action_mroot.packed()), bytes@, q2);
                            <u16 as Packed>::lemma_unique(v.confirmed, x2, bytes@, q2);
                            lemma_prefix_concat(v.previous.packed(), v.transaction_mroot.packed() + v.action_mroot.packed(), bytes@, q3);
                            <FixedBytes<32> as Packed>::lemma_unique(v.previous, x3, bytes@, q3);
                            lemma_prefix_concat(v.transaction_mroot.packed(), v.action_mroot.packed(), bytes@, q4);
                            <FixedBytes<32> as Packed>::lemma_unique(v.transaction_mroot, x4, bytes@, q4);
                        }
                    }
                }
                return Err(e);
            },
        };
        let v = BlockHeader { timestamp: x0, producer: x1, confirmed: x2, previous: x3, transaction_mroot: x4, action_mroot: x5 };
        proof {
            lemma_prefix_concat(v.transaction_mroot.packed(), v.action_mroot.packed(), bytes@, q4);
            lemma_prefix_concat(v.previous.packed(), v.transaction_mroot.packed() + v.action_mroot.packed(), bytes@, q3);
            lemma_prefix_concat(v.confirmed.packed(), v.previous.packed() + (v.transaction_mroot.packed() + v.action_mroot.packed()), bytes@, q2);
            lemma_prefix_concat(v.producer.packed(), v.confirmed.packed() + (v.previous.packed() + (v.transaction_mroot.packed() + v.action_mroot.packed())), bytes@, q1);
            lemma_prefix_concat(v.timestamp.packed(), v.producer.packed() + (v.confirmed.packed() + (v.previous.packed() + (v.transaction_mroot.packed() + v.action_mroot.packed()))), bytes@, q0);
        }
        *pos = p;
        Ok(v)
    }

    fn write(&self, bytes: &mut [u8], pos: &mut usize) -> (r: Result<(), WriteError>) {
        proof {
            assert(self.packed().len() <= 110);
        }
        let n = self.num_bytes();
        let len = bytes.len();
        if *pos > len || n > len - *pos {
            return Err(WriteError::NotEnoughSpace);
        }
        let mut p = *pos;
        let ghost start = *pos as int;
        let ghost buf0 = bytes@;
        let _ = self.timestamp.write(bytes, &mut p);
        let _ = self.producer.write(bytes, &mut p);
        proof {
            lemma_written_concat(buf0, start, self.timestamp.packed(), self.producer.packed());
        }
        let _ = self.confirmed.write(bytes, &mut p);
        proof {
            lemma_written_concat(buf0, start, self.timestamp.packed() + self.producer.packed(), self.confirmed.packed());
        }
        let _ = self.previous.write(bytes, &mut p);
        proof {
            lemma_written_concat(buf0, start, self.timestamp.packed() + self.producer.packed() + self.confirmed.packed(), self.previous.packed());
        }
        let _ = self.transaction_mroot.write(bytes, &mut p);
        proof {
            lemma_written_concat(buf0, start, self.timestamp.packed() + self.producer.packed() + self.confirmed.packed() + self.previous.packed(), self.transaction_mroot.packed());
        }
        let _ = self.action_mroot.write(bytes, &mut p);
        proof {
            lemma_written_concat(buf0, start, self.timestamp.packed() + self.producer.packed() + self.confirmed.packed() + self.previous.packed() + self.transaction_mroot.packed(), self.action_mroot.packed());
        }
        proof {
            assert(self.timestamp.packed() + self.producer.packed() + self.confirmed.packed() + self.previous.packed() + self.transaction_mroot.packed() + self.action_mroot.packed() =~= self.packed());
        }
        *pos = p;
        Ok(())
    }
}


impl Packed for Authority {
    open spec fn packed(&self) -> Seq<u8> {
        self.threshold.packed() + (self.keys.packed() + self.accounts.packed())
    }

    proof fn lemma_unique(a: Self, b: Self, bytes: Seq<u8>, pos: int) {
        let ghost mut q = pos;
        lemma_prefix_concat(a.threshold.packed(), a.keys.packed() + a.accounts.packed(), bytes, q);
        lemma_prefix_concat(b.threshold.packed(), b.keys.packed() + b.accounts.packed(), bytes, q);
        <u32 as Packed>::lemma_unique(a.threshold, b.threshold, bytes, q);
        q = q + a.threshold.packed().len();
        lemma_prefix_concat(a.keys.packed(), a.accounts.packed(), bytes, q);
        lemma_prefix_concat(b.keys.packed(), b.accounts.packed(), bytes, q);
        <Vec<KeyWeight> as Packed>::lemma_unique(a.keys, b.keys, bytes, q);
        q = q + a.keys.packed().len();
        <Vec<PermissionLevelWeight> as Packed>::lemma_unique(a.accounts, b.accounts, bytes, q);
    }

    open spec fn same_value(&self, other: &Self) -> bool {
        &&& self.threshold.same_value(&other.threshold)
        &&& self.keys.same_value(&other.keys)
        &&& self.accounts.same_value(&other.accounts)
    }

    proof fn lemma_injective(a: Self, b: Self) {
        let bytes = a.packed();
        let pos: int = 0;
        assert(bytes.subrange(0, bytes.len() as int) =~= bytes);
        let ghost mut q = pos;
        lemma_prefix_concat(a.threshold.packed(), a.keys.packed() + a.accounts.packed(), bytes, q);
        lemma_prefix_concat(b.threshold.packed(), b.keys.packed() + b.accounts.packed(), bytes, q);
        <u32 as Packed>::lemma_unique(a.threshold, b.threshold, bytes, q);
        <u32 as Packed>::lemma_injective(a.threshold, b.threshold);
        q = q + a.threshold.packed().len();
        lemma_prefix_concat(a.keys.packed(), a.accounts.packed(), bytes, q);
        lemma_prefix_concat(b.keys.packed(), b.accounts.packed(), bytes, q);
        <Vec<KeyWeight> as Packed>::lemma_unique(a.keys, b.keys, bytes, q);
        <Vec<KeyWeight> as Packed>::lemma_injective(a.keys, b.keys);
        q = q + a.keys.packed().len();
        <Vec<PermissionLevelWeight> as Packed>::lemma_unique(a.accounts, b.accounts, bytes, q);
        <Vec<PermissionLevelWeight> as Packed>::lemma_injective(a.accounts, b.accounts);
    }

    fn num_bytes(&self) -> (n: usize) {
        self.threshold.num_bytes() + self.keys.num_bytes() + self.accounts.num_bytes()
    }

    fn read(bytes: &[u8], pos: &mut usize) -> (r: Result<Self, ReadError>) {
        let mut p = *pos;
        let ghost q0: int = p as int;
        let x0 = match <u32 as Packed>::read(bytes, &mut p) {
            Ok(x) => x,
            Err(e) => {
                proof {
                    assert forall|v: Authority| !prefix_at(#[trigger] v.packed(), bytes@, *old(pos) as int) by {
                        if prefix_at(v.packed(), bytes@, *old(pos) as int) {
                            lemma_prefix_concat(v.threshold.packed(), v.keys.packed() + v.accounts.packed(), bytes@, q0);
                        }
                    }
                }
                return Err(e);
            },
        };
        let ghost q1: int = p as int;
        let x1 = match <Vec<KeyWeight> as Packed>::read(bytes, &mut p) {
            Ok(x) => x,
            Err(e) => {
                proof {
                    assert forall|v: Authority| !prefix_at(#[trigger] v.packed(), bytes@, *old(pos) as int) by {
                        if prefix_at(v.packed(), bytes@, *old(pos) as int) {
                            lemma_prefix_concat(v.threshold.packed(), v.keys.packed() + v.accounts.packed(), bytes@, q0);
                            <u32 as Packed>::lemma_unique(v.threshold, x0, bytes@, q0);
                            lemma_prefix_concat(v.keys.packed(), v.accounts.packed(), bytes@, q1);
                        }
                    }
                }
                return Err(e);
            },
        };
        let ghost q2: int = p as int;
        let x2 = match <Vec<PermissionLevelWeight> as Packed>::read(bytes, &mut p) {
            Ok(x) => x,
            Err(e) => {
                proof {
                    assert forall|v: Authority| !prefix_at(#[trigger] v.packed(), bytes@, *old(pos) as int) by {
                        if prefix_at(v.packed(), bytes@, *old(pos) as int) {
                            lemma_prefix_concat(v.threshold.packed(), v.keys.packed() + v.accounts.packed(), bytes@, q0);
                            <u32 as Packed>::lemma_unique(v.threshold, x0, bytes@, q0);
                            lemma_prefix_concat(v.keys.packed(), v.accounts.packed(), bytes@, q1);
                            <Vec<KeyWeight> as Packed>::lemma_unique(v.keys, x1, bytes@, q1);
                        }
                    }
                }
                return Err(e);
            },
        };
        let v = Authority { threshold: x0, keys: x1, accounts: x2 };
        proof {
            lemma_prefix_concat(v.keys.packed(), v.accounts.packed(), bytes@, q1);
            lemma_prefix_concat(v.threshold.packed(), v.keys.packed() + v.accounts.packed(), bytes@, q0);
        }
        *pos = p;
        Ok(v)
    }

    fn write(&self, bytes: &mut [u8], pos: &mut usize) -> (r: Result<(), WriteError>) {
        let mut p = *pos;
        let ghost start = *pos as int;
        let ghost buf0 = bytes@;
        match self.threshold.write(bytes, &mut p) {
            Err(e) => {
                proof {
                    assert(self.packed() =~= self.threshold.packed() + (self.keys.packed() + self.accounts.packed()));
                }
                return Err(e);
            },
            Ok(()) => {},
        }
        match self.keys.write(bytes, &mut p) {
            Err(e) => {
                proof {
                    assert(self.packed() =~= self.threshold.packed() + self.keys.packed() + (self.accounts.packed()));
                }
                return Err(e);
            },
            Ok(()) => {},
        }
        proof {
            lemma_written_concat(buf0, start, self.threshold.packed(), self.keys.packed());
        }
        match self.accounts.write(bytes, &mut p) {
            Err(e) => {
                proof {
                    assert(self.packed() =~= self.threshold.packed() + self.keys.packed() + self.accounts.packed());
                }
                return Err(e);
            },
            Ok(()) => {},
        }
        proof {
            lemma_written_concat(buf0, start, self.threshold.packed() + self.keys.packed(), self.accounts.packed());
        }
        proof {
            assert(self.threshold.packed() + self.keys.packed() + self.accounts.packed() =~= self.packed());
        }
        *pos = p;
        Ok(())
    }
}

impl Packed for BlockSigningAuthority {
    open spec fn packed(&self) -> Seq<u8> {
        self.variant.packed() + (self.threshold.packed() + self.keys.packed())
    }

    proof fn lemma_unique(a: Self, b: Self, bytes: Seq<u8>, pos: int) {
        let ghost mut q = pos;
        lemma_prefix_concat(a.variant.packed(), a.threshold.packed() + a.keys.packed(), bytes, q);
        lemma_prefix_concat(b.variant.packed(), b.threshold.packed() + b.keys.packed(), bytes, q);
        <u8 as Packed>::lemma_unique(a.variant, b.variant, bytes, q);
        q = q + a.variant.packed().len();
        lemma_prefix_concat(a.threshold.packed(), a.keys.packed(), bytes, q);
        lemma_prefix_concat(b.threshold.packed(), b.keys.packed(), bytes, q);
        <u32 as Packed>::lemma_unique(a.threshold, b.threshold, bytes, q);
        q = q + a.threshold.packed().len();
        <Vec<KeyWeight> as Packed>::lemma_unique(a.keys, b.keys, bytes, q);
    }

    open spec fn same_value(&self, other: &Self) -> bool {
        &&& self.variant.same_value(&other.variant)
        &&& self.threshold.same_value(&other.threshold)
        &&& self.keys.same_value(&other.keys)
    }

    proof fn lemma_injective(a: Self, b: Self) {
        let bytes = a.packed();
        let pos: int = 0;
        assert(bytes.subrange(0, bytes.len() as int) =~= bytes);
        let ghost mut q = pos;
        lemma_prefix_concat(a.variant.packed(), a.threshold.packed() + a.keys.packed(), bytes, q);
        lemma_prefix_concat(b.variant.packed(), b.threshold.packed() + b.keys.packed(), bytes, q);
        <u8 as Packed>::lemma_unique(a.variant, b.variant, bytes, q);
        <u8 as Packed>::lemma_injective(a.variant, b.variant);
        q = q + a.variant.packed().len();
        lemma_prefix_concat(a.threshold.packed(), a.keys.packed(), bytes, q);
        lemma_prefix_concat(b.threshold.packed(), b.keys.packed(), bytes, q);
        <u32 as Packed>::lemma_unique(a.threshold, b.threshold, bytes, q);
        <u32 as Packed>::lemma_injective(a.threshold, b.threshold);
        q = q + a.threshold.packed().len();
        <Vec<KeyWeight> as Packed>::lemma_unique(a.keys, b.keys, bytes, q);
        <Vec<KeyWeight> as Packed>::lemma_injective(a.keys, b.keys);
    }

    fn num_bytes(&self) -> (n: usize) {
        self.variant.num_bytes() + self.threshold.num_bytes() + self.keys.num_bytes()
    }

    fn read(bytes: &[u8], pos: &mut usize) -> (r: Result<Self, ReadError>) {
        let mut p = *pos;
        let ghost q0: int = p as int;
        let x0 = match <u8 as Packed>::read(bytes, &mut p) {
            Ok(x) => x,
            Err(e) => {
                proof {
                    assert forall|v: BlockSigningAuthority| !prefix_at(#[trigger] v.packed(), bytes@, *old(pos) as int) by {
                        if prefix_at(v.packed(), bytes@, *old(pos) as int) {
                            lemma_prefix_concat(v.variant.packed(), v.threshold.packed() + v.keys.packed(), bytes@, q0);
                        }
                    }
                }
                return Err(e);
            },
        };
        let ghost q1: int = p as int;
        let x1 = match <u32 as Packed>::read(bytes, &mut p) {
            Ok(x) => x,
            Err(e) => {
                proof {
                    assert forall|v: BlockSigningAuthority| !prefix_at(#[trigger] v.packed(), bytes@, *old(pos) as int) by {
                        if prefix_at(v.packed(), bytes@, *old(pos) as int) {
                            lemma_prefix_concat(v.variant.packed(), v.threshold.packed() + v.keys.packed(), bytes@, q0);
                            <u8 as Packed>::lemma_unique(v.variant, x0, bytes@, q0);
                            lemma_prefix_concat(v.threshold.packed(), v.keys.packed(), bytes@, q1);
                        }
                    }
                }
                return Err(e);
            },
        };
        let ghost q2: int = p as int;
        let x2 = match <Vec<KeyWeight> as Packed>::read(bytes, &mut p) {
            Ok(x) => x,
            Err(e) => {
                proof {
                    assert forall|v: BlockSigningAuthority| !prefix_at(#[trigger] v.packed(), bytes@, *old(pos) as int) by {
                        if prefix_at(v.packed(), bytes@, *old(pos) as int) {
                            lemma_prefix_concat(v.variant.packed(), v.threshold.packed() + v.keys.packed(), bytes@, q0);
                            <u8 as Packed>::lemma_unique(v.variant, x0, bytes@, q0);
                            lemma_prefix_concat(v.threshold.packed(), v.keys.packed(), bytes@, q1);
                            <u32 as Packed>::lemma_unique(v.threshold, x1, bytes@, q1);
                        }
                    }
                }
                return Err(e);
            },
        };
        let v = BlockSigningAuthority { variant: x0, threshold: x1, keys: x2 };
        proof {
            lemma_prefix_concat(v.threshold.packed(), v.keys.packed(), bytes@, q1);
            lemma_prefix_concat(v.variant.packed(), v.threshold.packed() + v.keys.packed(), bytes@, q0);
        }
        *pos = p;
        Ok(v)
    }

    fn write(&self, bytes: &mut [u8], pos: &mut usize) -> (r: Result<(), WriteError>) {
        let mut p = *pos;
        let ghost start = *pos as int;
        let ghost buf0 = bytes@;
        match self.variant.write(bytes, &mut p) {
            Err(e) => {
                proof {
                    assert(self.packed() =~= self.variant.packed() + (self.threshold.packed() + self.keys.packed()));
                }
                return Err(e);
            },
            Ok(()) => {},
        }
        match self.threshold.write(bytes, &mut p) {
            Err(e) => {
                proof {
                    assert(self.packed() =~= self.variant.packed() + self.threshold.packed() + (self.keys.packed()));
                }
                return Err(e);
            },
            Ok(()) => {},
        }
        proof {
            lemma_written_concat(buf0, start, self.variant.packed(), self.threshold.packed());
        }
        match self.keys.write(bytes, &mut p) {
            Err(e) => {
                proof {
                    assert(self.packed() =~= self.variant.packed() + self.threshold.packed() + self.keys.packed());
                }
                return Err(e);
            },
            Ok(()) => {},
        }
        proof {
            lemma_written_concat(buf0, start, self.variant.packed() + self.threshold.packed(), self.keys.packed());
        }
        proof {
            assert(self.variant.packed() + self.threshold.packed() + self.keys.packed() =~= self.packed());
        }
        *pos = p;
        Ok(())
    }
}

/// `PermissionLevel` is encoded as its fields, one after the other, in the order
/// `actor`, `permission`.
pub proof fn lemma_permission_level_layout(a: PermissionLevel)
    ensures
        a.packed() == a.actor.packed() + a.permission.packed(),
{
    assert(a.packed() =~= a.actor.packed() + a.permission.packed());
}

/// `KeyWeight` is encoded as its fields, one after the other, in the order
/// `key`, `weight`.
pub proof fn lemma_key_weight_layout(a: KeyWeight)
    ensures
        a.packed() == a.key.packed() + a.weight.packed(),
{
    assert(a.packed() =~= a.key.packed() + a.weight.packed());
}

/// `PermissionLevelWeight` is encoded as its fields, one after the other, in the order
/// `permission`, `weight`.
pub proof fn lemma_permission_level_weight_layout(a: PermissionLevelWeight)
    ensures
        a.packed() == a.permission.packed() + a.weight.packed(),
{
    assert(a.packed() =~= a.permission.packed() + a.weight.packed());
}

/// `BlockHeader` is encoded as its fields, one after the other, in the order
/// `timestamp`, `producer`, `confirmed`, `previous`, `transaction_mroot`, `action_mroot`.
pub proof fn lemma_block_header_layout(a: BlockHeader)
    ensures
        a.packed() == a.timestamp.packed() + a.producer.packed() + a.confirmed.packed() + a.previous.packed() + a.transaction_mroot.packed() + a.action_mroot.packed(),
{
    assert(a.packed() =~= a.timestamp.packed() + a.producer.packed() + a.confirmed.packed() + a.previous.packed() + a.transaction_mroot.packed() + a.action_mroot.packed());
}

/// `Authority` is encoded as its fields, one after the other, in the order
/// `threshold`, `keys`, `accounts`.
pub proof fn lemma_authority_layout(a: Authority)
    ensures
        a.packed() == a.threshold.packed() + a.keys.packed() + a.accounts.packed(),
{
    assert(a.packed() =~= a.threshold.packed() + a.keys.packed() + a.accounts.packed());
}

/// `BlockSigningAuthority` is encoded as its fields, one after the other, in the order
/// `variant`, `threshold`, `keys`.
pub proof fn lemma_block_signing_authority_layout(a: BlockSigningAuthority)
    ensures
        a.packed() == a.variant.packed() + a.threshold.packed() + a.keys.packed(),
{
    assert(a.packed() =~= a.variant.packed() + a.threshold.packed() + a.keys.packed());
}

} // verus!
