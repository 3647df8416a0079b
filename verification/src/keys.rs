use vstd::prelude::*;

use crate::codec::{prefix_at, written, Packed, ReadError, WriteError};

verus! {

/// A fixed number of bytes, such as a hash.
#[derive(Debug, Clone, Copy)]
pub struct FixedBytes<const N: usize>(pub [u8; N]);

/// A 256-bit digest.
pub type Checksum256 = FixedBytes<32>;

impl<const N: usize> FixedBytes<N> {
    /// The given bytes.
    pub fn new(bytes: [u8; N]) -> (r: Self)
        ensures
            r.0@ == bytes@,
    {
        FixedBytes(bytes)
    }

    /// Whether two values hold the same bytes.
    pub fn same_bytes(&self, other: &Self) -> (r: bool)
        ensures
            r == (self.0@ == other.0@),
    {
        let mut i: usize = 0;
        while i < N
            invariant
                i <= N,
                self.0@.len() == N,
                other.0@.len() == N,
                forall|j: int| 0 <= j < i ==> self.0@[j] == other.0@[j],
            decreases N - i,
        {
            if self.0[i] != other.0[i] {
                return false;
            }
            i = i + 1;
        }
        assert(self.0@ =~= other.0@);
        true
    }
}

/// A public key: a curve tag and 33 bytes of compressed point.
#[derive(Debug, Clone, Copy)]
pub struct PublicKey(pub FixedBytes<34>);

/// Why bytes could not be taken as a public key.
#[derive(Debug, Clone, Copy, PartialEq, Eq, Structural)]
pub enum PublicKeyError {
    /// The slice does not hold exactly 34 bytes.
    WrongLength,
}

impl PublicKeyError {
    /// The text of the message, as a sequence of characters.
    pub open spec fn spec_message(&self) -> Seq<char> {
        "public key must be 34 bytes long"@
    }

    /// The message with which the construction aborts.
    pub fn message(&self) -> (r: &'static str)
        ensures
            r@ == self.spec_message(),
    {
        "public key must be 34 bytes long"
    }
}

impl Default for PublicKey {
    fn default() -> (r: Self)
        ensures
            r.0.0@ == Seq::new(34, |i: int| 0u8),
    {
        let r = PublicKey(FixedBytes([0u8; 34]));
        assert(r.0.0@ =~= Seq::new(34, |i: int| 0u8));
        r
    }
}

impl PublicKey {
    /// The key held in the slice, which must be 34 bytes long.
    pub fn new(slice: &[u8]) -> (r: Result<Self, PublicKeyError>)
        ensures
            match r {
                Ok(k) => slice@.len() == 34 && k.0.0@ == slice@,
                Err(e) => slice@.len() != 34 && e == PublicKeyError::WrongLength,
            },
    {
        if slice.len() != 34 {
            return Err(PublicKeyError::WrongLength);
        }
        let mut data = [0u8; 34];
        let mut i: usize = 0;
        while i < 34
            invariant
                slice@.len() == 34,
                i <= 34,
                data@.len() == 34,
                forall|j: int| 0 <= j < i ==> data@[j] == slice@[j],
            decreases 34 - i,
        {
            data[i] = slice[i];
            i = i + 1;
        }
        assert(data@ =~= slice@);
        Ok(PublicKey(FixedBytes(data)))
    }

    /// Whether two keys are the same.
    pub fn same_key(&self, other: &Self) -> (r: bool)
        ensures
            r == (self.0.0@ == other.0.0@),
    {
        self.0.same_bytes(&other.0)
    }
}

/// A signature: a curve tag and 64 bytes.
#[derive(Debug, Clone, Copy)]
pub struct Signature(pub FixedBytes<65>);

impl<const N: usize> Packed for FixedBytes<N> {
    open spec fn packed(&self) -> Seq<u8> {
        self.0@
    }

    proof fn lemma_unique(a: Self, b: Self, bytes: Seq<u8>, pos: int) {
        assert(a.0 =~= b.0);
    }

    open spec fn same_value(&self, other: &Self) -> bool {
        *self == *other
    }

    proof fn lemma_injective(a: Self, b: Self) {
        assert(a.0 =~= b.0);
    }

    fn num_bytes(&self) -> (n: usize) {
        N
    }

    fn read(bytes: &[u8], pos: &mut usize) -> (r: Result<Self, ReadError>) {
        let len = bytes.len();
        if *pos > len || N > len - *pos {
            proof {
                assert forall|v: FixedBytes<N>| !prefix_at(#[trigger] v.packed(), bytes@, *old(pos) as int) by {}
            }
            return Err(ReadError::ParseError);
        }
        let mut data = [0u8; N];
        let start = *pos;
        let mut i: usize = 0;
        while i < N
            invariant
                start + N <= bytes@.len(),
                len == bytes@.len(),
                i <= N,
                data@.len() == N,
                forall|j: int| 0 <= j < i ==> data@[j] == bytes@[start + j],
            decreases N - i,
        {
            data[i] = bytes[start + i];
            i = i + 1;
        }
        assert(bytes@.subrange(start as int, start + N) =~= data@);
        *pos = start + N;
        Ok(FixedBytes(data))
    }

    fn write(&self, bytes: &mut [u8], pos: &mut usize) -> (r: Result<(), WriteError>) {
        let len = bytes.len();
        if *pos > len || N > len - *pos {
            return Err(WriteError::NotEnoughSpace);
        }
        let start = *pos;
        let mut i: usize = 0;
        while i < N
            invariant
                start + N <= old(bytes)@.len(),
                len == old(bytes)@.len(),
                bytes@.len() == old(bytes)@.len(),
                i <= N,
                self.0@.len() == N,
                forall|j: int| 0 <= j < start ==> bytes@[j] == old(bytes)@[j],
                forall|j: int| start <= j < start + i ==> bytes@[j] == self.0@[j - start],
                forall|j: int| start + i <= j < bytes@.len() ==> bytes@[j] == old(bytes)@[j],
            decreases N - i,
        {
            bytes[start + i] = self.0[i];
            i = i + 1;
        }
        assert(bytes@ =~= written(old(bytes)@, start as int, self.packed()));
        *pos = start + N;
        Ok(())
    }
}


impl Packed for PublicKey {
    open spec fn packed(&self) -> Seq<u8> {
        self.0.packed()
    }

    proof fn lemma_unique(a: Self, b: Self, bytes: Seq<u8>, pos: int) {
        let ghost mut q = pos;
        <FixedBytes<34> as Packed>::lemma_unique(a.0, b.0, bytes, q);
    }

    open spec fn same_value(&self, other: &Self) -> bool {
        &&& self.0.same_value(&other.0)
    }

    proof fn lemma_injective(a: Self, b: Self) {
        let bytes = a.packed();
        let pos: int = 0;
        assert(bytes.subrange(0, bytes.len() as int) =~= bytes);
        let ghost mut q = pos;
        <FixedBytes<34> as Packed>::lemma_unique(a.0, b.0, bytes, q);
        <FixedBytes<34> as Packed>::lemma_injective(a.0, b.0);
    }

    fn num_bytes(&self) -> (n: usize) {
        self.0.num_bytes()
    }

    fn read(bytes: &[u8], pos: &mut usize) -> (r: Result<Self, ReadError>) {
        let mut p = *pos;
        let ghost q0: int = p as int;
        let x0 = match <FixedBytes<34> as Packed>::read(bytes, &mut p) {
            Ok(x) => x,
            Err(e) => {
                proof {
                    assert forall|v: PublicKey| !prefix_at(#[trigger] v.packed(), bytes@, *old(pos) as int) by {
                        if prefix_at(v.packed(), bytes@, *old(pos) as int) {
                        }
                    }
                }
                return Err(e);
            },
        };
        let v = PublicKey(x0);
        proof {
        }
        *pos = p;
        Ok(v)
    }

    fn write(&self, bytes: &mut [u8], pos: &mut usize) -> (r: Result<(), WriteError>) {
        proof {
            assert(self.packed().len() <= 34);
        }
        let n = self.num_bytes();
        let len = bytes.len();
        if *pos > len || n > len - *pos {
            return Err(WriteError::NotEnoughSpace);
        }
        let mut p = *pos;
        let ghost start = *pos as int;
        let ghost buf0 = bytes@;
        let _ = self.0.write(bytes, &mut p);
        *pos = p;
        Ok(())
    }
}

impl Packed for Signature {
    open spec fn packed(&self) -> Seq<u8> {
        self.0.packed()
    }

    proof fn lemma_unique(a: Self, b: Self, bytes: Seq<u8>, pos: int) {
        let ghost mut q = pos;
        <FixedBytes<65> as Packed>::lemma_unique(a.0, b.0, bytes, q);
    }

    open spec fn same_value(&self, other: &Self) -> bool {
        &&& self.0.same_value(&other.0)
    }

    proof fn lemma_injective(a: Self, b: Self) {
        let bytes = a.packed();
        let pos: int = 0;
        assert(bytes.subrange(0, bytes.len() as int) =~= bytes);
        let ghost mut q = pos;
        <FixedBytes<65> as Packed>::lemma_unique(a.0, b.0, bytes, q);
        <FixedBytes<65> as Packed>::lemma_injective(a.0, b.0);
    }

    fn num_bytes(&self) -> (n: usize) {
        self.0.num_bytes()
    }

    fn read(bytes: &[u8], pos: &mut usize) -> (r: Result<Self, ReadError>) {
        let mut p = *pos;
        let ghost q0: int = p as int;
        let x0 = match <FixedBytes<65> as Packed>::read(bytes, &mut p) {
            Ok(x) => x,
            Err(e) => {
                proof {
                    assert forall|v: Signature| !prefix_at(#[trigger] v.packed(), bytes@, *old(pos) as int) by {
                        if prefix_at(v.packed(), bytes@, *old(pos) as int) {
                        }
                    }
                }
                return Err(e);
            },
        };
        let v = Signature(x0);
        proof {
        }
        *pos = p;
        Ok(v)
    }

    fn write(&self, bytes: &mut [u8], pos: &mut usize) -> (r: Result<(), WriteError>) {
        proof {
            assert(self.packed().len() <= 65);
        }
        let n = self.num_bytes();
        let len = bytes.len();
        if *pos > len || n > len - *pos {
            return Err(WriteError::NotEnoughSpace);
        }
        let mut p = *pos;
        let ghost start = *pos as int;
        let ghost buf0 = bytes@;
        let _ = self.0.write(bytes, &mut p);
        *pos = p;
        Ok(())
    }
}

} // verus!
