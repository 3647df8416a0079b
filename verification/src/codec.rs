use vstd::prelude::*;

use crate::asset::Asset;
use crate::name::Name;
use crate::symbol::{Symbol, SymbolCode};
use crate::time::{BlockTimestamp, Microseconds, TimePoint, TimePointSec};

verus! {

/// Why bytes could not be read as a value.
#[derive(Debug, Clone, Copy, PartialEq, Eq, Structural)]
pub enum ReadError {
    /// No value's encoding starts at the given position.
    ParseError,
}

/// Why a value could not be written into a buffer.
#[derive(Debug, Clone, Copy, PartialEq, Eq, Structural)]
pub enum WriteError {
    /// The buffer is too short to hold the encoding at the given position.
    NotEnoughSpace,
}

/// `data` stands in `bytes` starting at `pos`.
pub open spec fn prefix_at(data: Seq<u8>, bytes: Seq<u8>, pos: int) -> bool {
    &&& 0 <= pos
    &&& pos + data.len() <= bytes.len()
    &&& bytes.subrange(pos, pos + data.len()) == data
}

/// `buf` with `data` written over it from `pos` on.
pub open spec fn written(buf: Seq<u8>, pos: int, data: Seq<u8>) -> Seq<u8> {
    buf.subrange(0, pos) + data + buf.subrange(pos + data.len(), buf.len() as int)
}

/// A value with a binary encoding: integers little-endian, `bool` as one byte
/// holding 0 or 1, `Option` as a tag byte 0 or 1 followed by the value, and a
/// struct as its fields one after the other.
pub trait Packed: Sized {
    /// The bytes that encode the value.
    spec fn packed(&self) -> Seq<u8>;

    /// Encodings never overlap: two encodings that start at the same place
    /// are the same bytes, so an encoding is never a proper prefix of another.
    proof fn lemma_unique(a: Self, b: Self, bytes: Seq<u8>, pos: int)
        requires
            prefix_at(a.packed(), bytes, pos),
            prefix_at(b.packed(), bytes, pos),
        ensures
            a.packed() == b.packed(),
    ;

    /// The two are the same value: equal, for a type with no vector in it,
    /// and otherwise equal field by field and element by element.
    spec fn same_value(&self, other: &Self) -> bool;

    /// The encoding is one to one: equal encodings come from the same value,
    /// so decoding gives back the value that was encoded.
    proof fn lemma_injective(a: Self, b: Self)
        requires
            a.packed() == b.packed(),
        ensures
            a.same_value(&b),
    ;

    /// The length of the encoding.
    fn num_bytes(&self) -> (n: usize)
        requires
            self.packed().len() <= usize::MAX,
        ensures
            n == self.packed().len(),
    ;

    /// Reads the value whose encoding starts at `pos`, and moves `pos` past it.
    fn read(bytes: &[u8], pos: &mut usize) -> (r: Result<Self, ReadError>)
        ensures
            match r {
                Ok(v) => prefix_at(v.packed(), bytes@, *old(pos) as int) && *final(pos) == *old(
                    pos,
                ) + v.packed().len(),
                Err(e) => e == ReadError::ParseError && *final(pos) == *old(pos) && forall|v: Self|
                    !prefix_at(#[trigger] v.packed(), bytes@, *old(pos) as int),
            },
    ;

    /// Writes the encoding into `bytes` at `pos`, and moves `pos` past it.
    fn write(&self, bytes: &mut [u8], pos: &mut usize) -> (r: Result<(), WriteError>)
        ensures
            old(bytes)@.len() == final(bytes)@.len(),
            match r {
                Ok(()) => *old(pos) + self.packed().len() <= old(bytes)@.len() && final(bytes)@
                    == written(old(bytes)@, *old(pos) as int, self.packed()) && *final(pos) == *old(
                    pos,
                ) + self.packed().len(),
                Err(e) => e == WriteError::NotEnoughSpace && *old(pos) + self.packed().len() > old(
                    bytes,
                )@.len() && *final(pos) == *old(pos),
            },
    ;
}

/// The bytes `[pos, pos + n)` of `bytes`, when they are all there.
fn take_bytes(bytes: &[u8], pos: usize, n: usize) -> (r: Option<Vec<u8>>)
    ensures
        bytes@.len() <= usize::MAX,
        match r {
            Some(v) => pos + n <= bytes@.len() && v@ == bytes@.subrange(pos as int, pos + n),
            None => pos + n > bytes@.len(),
        },
{
    let len = bytes.len();
    if pos > len || n > len - pos {
        return None;
    }
    let mut v: Vec<u8> = Vec::new();
    let mut i: usize = 0;
    while i < n
        invariant
            pos + n <= bytes@.len(),
            len == bytes@.len(),
            i <= n,
            v@ == bytes@.subrange(pos as int, pos + i),
        decreases n - i,
    {
        v.push(bytes[pos + i]);
        i = i + 1;
        assert(v@ =~= bytes@.subrange(pos as int, pos + i));
    }
    Some(v)
}

/// Writes `data` into `bytes` from `pos` on; the caller has checked that it fits.
fn put_bytes(bytes: &mut [u8], pos: usize, data: &[u8])
    requires
        pos + data@.len() <= old(bytes)@.len(),
    ensures
        final(bytes)@ == written(old(bytes)@, pos as int, data@),
{
    let mut i: usize = 0;
    let len = bytes.len();
    while i < data.len()
        invariant
            pos + data@.len() <= old(bytes)@.len(),
            len == old(bytes)@.len(),
            bytes@.len() == old(bytes)@.len(),
            i <= data@.len(),
            forall|j: int| 0 <= j < pos ==> bytes@[j] == old(bytes)@[j],
            forall|j: int| pos <= j < pos + i ==> bytes@[j] == data@[j - pos],
            forall|j: int| pos + i <= j < bytes@.len() ==> bytes@[j] == old(bytes)@[j],
        decreases data@.len() - i,
    {
        bytes[pos + i] = data[i];
        i = i + 1;
    }
    assert(bytes@ =~= written(old(bytes)@, pos as int, data@));
}


/// Writes `data` into `bytes` at `pos` when it fits, and moves `pos` past it.
fn write_encoded(bytes: &mut [u8], pos: &mut usize, data: &[u8]) -> (r: Result<(), WriteError>)
    ensures
        old(bytes)@.len() == final(bytes)@.len(),
        match r {
            Ok(()) => *old(pos) + data@.len() <= old(bytes)@.len() && final(bytes)@ == written(
                old(bytes)@,
                *old(pos) as int,
                data@,
            ) && *final(pos) == *old(pos) + data@.len(),
            Err(e) => e == WriteError::NotEnoughSpace && *old(pos) + data@.len() > old(bytes)@.len()
                && final(bytes)@ == old(bytes)@ && *final(pos) == *old(pos),
        },
{
    let len = bytes.len();
    if *pos > len || data.len() > len - *pos {
        return Err(WriteError::NotEnoughSpace);
    }
    put_bytes(bytes, *pos, data);
    *pos = *pos + data.len();
    Ok(())
}

/// A concatenation stands at `pos` exactly when its first part does and its
/// second part follows right after.
pub proof fn lemma_prefix_concat(x: Seq<u8>, y: Seq<u8>, bytes: Seq<u8>, pos: int)
    ensures
        prefix_at(x + y, bytes, pos) <==> (prefix_at(x, bytes, pos) && prefix_at(
            y,
            bytes,
            pos + x.len(),
        )),
{
    if prefix_at(x + y, bytes, pos) {
        assert(bytes.subrange(pos, pos + x.len()) =~= (x + y).subrange(0, x.len() as int));
        assert(bytes.subrange(pos + x.len(), pos + x.len() + y.len()) =~= (x + y).subrange(
            x.len() as int,
            (x.len() + y.len()) as int,
        ));
        assert((x + y).subrange(0, x.len() as int) =~= x);
        assert((x + y).subrange(x.len() as int, (x.len() + y.len()) as int) =~= y);
    }
    if prefix_at(x, bytes, pos) && prefix_at(y, bytes, pos + x.len()) {
        assert(bytes.subrange(pos, pos + (x + y).len()) =~= x + y);
    }
}

/// Writing two pieces one after the other writes their concatenation.
pub proof fn lemma_written_concat(buf: Seq<u8>, pos: int, x: Seq<u8>, y: Seq<u8>)
    requires
        0 <= pos,
        pos + x.len() + y.len() <= buf.len(),
    ensures
        written(written(buf, pos, x), pos + x.len(), y) == written(buf, pos, x + y),
        written(buf, pos, x).len() == buf.len(),
{
    assert(written(written(buf, pos, x), pos + x.len(), y) =~= written(buf, pos, x + y));
}

/// Reading gives back what was written: after a value's encoding is written
/// into a buffer, the encoding stands there, and any value whose encoding
/// stands there has the same encoding and is the same value. With the
/// contracts of `write` and `read`, a read at the same position succeeds,
/// returns the value that was written, and moves past its bytes.
pub proof fn lemma_read_after_write<T: Packed>(v: T, buf: Seq<u8>, pos: int)
    requires
        0 <= pos,
        pos + v.packed().len() <= buf.len(),
    ensures
        prefix_at(v.packed(), written(buf, pos, v.packed()), pos),
        forall|w: T|
            prefix_at(#[trigger] w.packed(), written(buf, pos, v.packed()), pos) ==> w.packed()
                == v.packed() && w.same_value(&v),
{
    let out = written(buf, pos, v.packed());
    assert(out.subrange(pos, pos + v.packed().len()) =~= v.packed());
    assert forall|w: T| prefix_at(#[trigger] w.packed(), out, pos) implies w.packed() == v.packed()
        && w.same_value(&v) by {
        T::lemma_unique(w, v, out, pos);
        T::lemma_injective(w, v);
    }
}

/// A length or count, encoded in as few bytes as it needs, seven bits at a
/// time from the lowest, each byte but the last with its top bit set.
#[derive(Debug, Clone, Copy, PartialEq, Eq, Structural)]
pub struct VarUint32(pub u32);

/// The variable-length encoding of `v`.
pub open spec fn leb(v: nat) -> Seq<u8>
    decreases v,
{
    if v < 128 {
        seq![v as u8]
    } else {
        seq![((v % 128) + 128) as u8] + leb(v / 128)
    }
}

/// 128 to the power `d`.
pub open spec fn pow128(d: nat) -> nat
    decreases d,
{
    if d == 0 {
        1
    } else {
        128 * pow128((d - 1) as nat)
    }
}

proof fn lemma_pow128_mono(a: nat, b: nat)
    requires
        a <= b,
    ensures
        pow128(a) <= pow128(b),
        pow128(a) >= 1,
    decreases b,
{
    if b > 0 {
        if a < b {
            lemma_pow128_mono(a, (b - 1) as nat);
        }
        lemma_pow128_mono(0, (b - 1) as nat);
    }
}

/// No two numbers have encodings that both start at the same place.
pub proof fn lemma_leb_unique(a: nat, b: nat, bytes: Seq<u8>, pos: int)
    requires
        prefix_at(leb(a), bytes, pos),
        prefix_at(leb(b), bytes, pos),
    ensures
        a == b,
    decreases a,
{
    assert(leb(a)[0] == bytes[pos]);
    assert(leb(b)[0] == bytes[pos]);
    if a >= 128 && b >= 128 {
        lemma_prefix_concat(seq![((a % 128) + 128) as u8], leb(a / 128), bytes, pos);
        lemma_prefix_concat(seq![((b % 128) + 128) as u8], leb(b / 128), bytes, pos);
        lemma_leb_unique(a / 128, b / 128, bytes, pos + 1);
    }
}

/// Reads a number of at most `depth` groups of seven bits at `pos`.
fn read_leb(bytes: &[u8], pos: usize, depth: usize) -> (r: Option<(u128, usize)>)
    requires
        1 <= depth <= 10,
    ensures
        match r {
            Some((v, end)) => (v as nat) < pow128(depth as nat) && prefix_at(leb(v as nat), bytes@, pos as int)
                && end == pos + leb(v as nat).len(),
            None => forall|v: nat| v < pow128(depth as nat) ==> !prefix_at(#[trigger] leb(v), bytes@, pos as int),
        },
    decreases depth,
{
    assert(pow128(1) == 128) by {
        assert(pow128(0) == 1);
    }
    assert(pow128(10) == 1180591620717411303424) by {
        reveal_with_fuel(pow128, 11);
    }
    assert(pow128(depth as nat) <= pow128(10)) by {
        lemma_pow128_mono(depth as nat, 10);
    }
    if pos >= bytes.len() {
        return None;
    }
    let b = bytes[pos];
    if b < 128 {
        proof {
            assert(bytes@.subrange(pos as int, pos + 1) =~= leb(b as nat));
            assert(pow128(depth as nat) >= 128) by {
                lemma_pow128_mono(1, depth as nat);
            }
        }
        return Some((b as u128, pos + 1));
    }
    if depth == 1 {
        proof {
            assert forall|v: nat| v < pow128(depth as nat) implies !prefix_at(#[trigger] leb(v), bytes@, pos as int) by {
                if prefix_at(leb(v), bytes@, pos as int) {
                    assert(leb(v)[0] == bytes@[pos as int]);
                }
            }
        }
        return None;
    }
    let rest = read_leb(bytes, pos + 1, depth - 1);
    proof {
        assert(pow128(depth as nat) == 128 * pow128((depth - 1) as nat));
    }
    match rest {
        None => {
            proof {
                assert forall|v: nat| v < pow128(depth as nat) implies !prefix_at(#[trigger] leb(v), bytes@, pos as int) by {
                    if prefix_at(leb(v), bytes@, pos as int) {
                        assert(leb(v)[0] == bytes@[pos as int]);
                        assert(v >= 128);
                        lemma_prefix_concat(seq![((v % 128) + 128) as u8], leb(v / 128), bytes@, pos as int);
                        assert(v / 128 < pow128((depth - 1) as nat)) by (nonlinear_arith)
                            requires
                                v < pow128(depth as nat),
                                pow128(depth as nat) == 128 * pow128((depth - 1) as nat),
                        ;
                        assert(!prefix_at(leb(v / 128), bytes@, pos + 1));
                    }
                }
            }
            None
        },
        Some((rv, end)) => {
            if rv == 0 {
                proof {
                    assert forall|v: nat| v < pow128(depth as nat) implies !prefix_at(#[trigger] leb(v), bytes@, pos as int) by {
                        if prefix_at(leb(v), bytes@, pos as int) {
                            assert(leb(v)[0] == bytes@[pos as int]);
                            assert(v >= 128);
                            lemma_prefix_concat(seq![((v % 128) + 128) as u8], leb(v / 128), bytes@, pos as int);
                            lemma_leb_unique(v / 128, 0, bytes@, pos + 1);
                        }
                    }
                }
                return None;
            }
            proof {
                assert(pow128((depth - 1) as nat) <= pow128(9)) by {
                    lemma_pow128_mono((depth - 1) as nat, 9);
                }
                assert(pow128(9) == 9223372036854775808) by {
                    reveal_with_fuel(pow128, 10);
                }
            }
            let low = (b - 128) as u128;
            let v = low + 128 * rv;
            proof {
                let vn = v as nat;
                assert(vn % 128 == low && vn / 128 == rv) by (nonlinear_arith)
                    requires
                        vn == low + 128 * rv,
                        low < 128,
                ;
                assert(vn >= 128);
                assert(leb(vn) == seq![((vn % 128) + 128) as u8] + leb(vn / 128));
                assert(((vn % 128) + 128) as u8 == b);
                assert(bytes@.subrange(pos as int, pos + 1) =~= seq![b]);
                lemma_prefix_concat(seq![b], leb(rv as nat), bytes@, pos as int);
                assert(vn < pow128(depth as nat)) by (nonlinear_arith)
                    requires
                        vn == low + 128 * rv,
                        low < 128,
                        rv < pow128((depth - 1) as nat),
                        pow128(depth as nat) == 128 * pow128((depth - 1) as nat),
                ;
            }
            Some((v, end))
        },
    }
}

/// The variable-length encoding of `v`.
fn encode_leb(v: u64) -> (r: Vec<u8>)
    ensures
        r@ == leb(v as nat),
{
    let mut out: Vec<u8> = Vec::new();
    let mut cur = v;
    while cur >= 128
        invariant
            out@ + leb(cur as nat) == leb(v as nat),
        decreases cur,
    {
        let byte = (cur % 128 + 128) as u8;
        proof {
            assert(leb(cur as nat) == seq![byte] + leb((cur / 128) as nat));
            assert(out@.push(byte) + leb((cur / 128) as nat) =~= out@ + leb(cur as nat));
        }
        out.push(byte);
        cur = cur / 128;
    }
    proof {
        assert(out@.push(cur as u8) =~= out@ + leb(cur as nat));
    }
    out.push(cur as u8);
    out
}

impl Packed for VarUint32 {
    open spec fn packed(&self) -> Seq<u8> {
        leb(self.0 as nat)
    }

    proof fn lemma_unique(a: Self, b: Self, bytes: Seq<u8>, pos: int) {
        lemma_leb_unique(a.0 as nat, b.0 as nat, bytes, pos);
    }

    open spec fn same_value(&self, other: &Self) -> bool {
        *self == *other
    }

    proof fn lemma_injective(a: Self, b: Self) {
        let bytes = a.packed();
        assert(bytes.subrange(0, bytes.len() as int) =~= bytes);
        lemma_leb_unique(a.0 as nat, b.0 as nat, bytes, 0);
    }

    fn num_bytes(&self) -> (n: usize) {
        let enc = encode_leb(self.0 as u64);
        enc.len()
    }

    fn read(bytes: &[u8], pos: &mut usize) -> (r: Result<Self, ReadError>) {
        assert(pow128(5) == 34359738368) by {
            reveal_with_fuel(pow128, 6);
        }
        match read_leb(bytes, *pos, 5) {
            None => {
                proof {
                    assert forall|v: VarUint32| !prefix_at(#[trigger] v.packed(), bytes@, *old(pos) as int) by {
                        assert((v.0 as nat) < pow128(5));
                    }
                }
                Err(ReadError::ParseError)
            },
            Some((v, end)) => {
                if v > 0xFFFF_FFFF {
                    proof {
                        assert forall|w: VarUint32| !prefix_at(#[trigger] w.packed(), bytes@, *old(pos) as int) by {
                            if prefix_at(w.packed(), bytes@, *old(pos) as int) {
                                lemma_leb_unique(w.0 as nat, v as nat, bytes@, *old(pos) as int);
                            }
                        }
                    }
                    return Err(ReadError::ParseError);
                }
                *pos = end;
                Ok(VarUint32(v as u32))
            },
        }
    }

    fn write(&self, bytes: &mut [u8], pos: &mut usize) -> (r: Result<(), WriteError>) {
        let enc = encode_leb(self.0 as u64);
        write_encoded(bytes, pos, enc.as_slice())
    }
}

/// The encodings of the items, one after the other.
pub open spec fn concat_packed<T: Packed>(s: Seq<T>) -> Seq<u8>
    decreases s.len(),
{
    if s.len() == 0 {
        Seq::empty()
    } else {
        concat_packed(s.drop_last()) + s.last().packed()
    }
}

proof fn lemma_concat_take<T: Packed>(s: Seq<T>, i: int)
    requires
        0 <= i < s.len(),
    ensures
        concat_packed(s.take(i + 1)) == concat_packed(s.take(i)) + s[i].packed(),
{
    assert(s.take(i + 1).drop_last() =~= s.take(i));
}

proof fn lemma_concat_split<T: Packed>(s: Seq<T>, k: int)
    requires
        0 <= k <= s.len(),
    ensures
        concat_packed(s) == concat_packed(s.take(k)) + concat_packed(s.skip(k)),
    decreases s.len(),
{
    if k == s.len() {
        assert(s.take(k) =~= s);
        assert(s.skip(k) =~= Seq::<T>::empty());
        assert(concat_packed(s) + Seq::<u8>::empty() =~= concat_packed(s));
    } else {
        lemma_concat_split(s.drop_last(), k);
        assert(s.drop_last().take(k) =~= s.take(k));
        assert(s.skip(k).drop_last() =~= s.drop_last().skip(k));
        assert(s.skip(k).last() == s.last());
        assert(concat_packed(s) =~= concat_packed(s.take(k)) + concat_packed(s.skip(k)));
    }
}

proof fn lemma_concat_at<T: Packed>(s: Seq<T>, i: int)
    requires
        0 <= i < s.len(),
    ensures
        concat_packed(s) == concat_packed(s.take(i)) + (s[i].packed() + concat_packed(s.skip(i + 1))),
{
    lemma_concat_split(s, i);
    let r = s.skip(i);
    lemma_concat_split(r, 1);
    let one = r.take(1);
    assert(one.len() == 1);
    assert(one[0] == s[i]);
    assert(one.drop_last() =~= Seq::<T>::empty());
    assert(concat_packed(one.drop_last()) =~= Seq::<u8>::empty());
    assert(concat_packed(one) =~= s[i].packed());
    assert(r.skip(1) =~= s.skip(i + 1));
    assert(concat_packed(s) =~= concat_packed(s.take(i)) + (s[i].packed() + concat_packed(s.skip(i + 1))));
}

proof fn lemma_concat_unique<T: Packed>(a: Seq<T>, b: Seq<T>, bytes: Seq<u8>, pos: int)
    requires
        a.len() == b.len(),
        prefix_at(concat_packed(a), bytes, pos),
        prefix_at(concat_packed(b), bytes, pos),
    ensures
        concat_packed(a) == concat_packed(b),
    decreases a.len(),
{
    if a.len() > 0 {
        let pa = concat_packed(a.drop_last());
        let pb = concat_packed(b.drop_last());
        lemma_prefix_concat(pa, a.last().packed(), bytes, pos);
        lemma_prefix_concat(pb, b.last().packed(), bytes, pos);
        lemma_concat_unique(a.drop_last(), b.drop_last(), bytes, pos);
        T::lemma_unique(a.last(), b.last(), bytes, pos + pa.len());
    }
}

/// Equal concatenations of the encodings of equally many values come from
/// the same values, one by one.
proof fn lemma_concat_injective<T: Packed>(a: Seq<T>, b: Seq<T>)
    requires
        a.len() == b.len(),
        concat_packed(a) == concat_packed(b),
    ensures
        forall|i: int| 0 <= i < a.len() ==> #[trigger] a[i].same_value(&b[i]),
    decreases a.len(),
{
    if a.len() > 0 {
        let bytes = concat_packed(a);
        let pa = concat_packed(a.drop_last());
        let pb = concat_packed(b.drop_last());
        assert(bytes.subrange(0, bytes.len() as int) =~= bytes);
        lemma_prefix_concat(pa, a.last().packed(), bytes, 0);
        lemma_prefix_concat(pb, b.last().packed(), bytes, 0);
        lemma_concat_unique(a.drop_last(), b.drop_last(), bytes, 0);
        assert(a.last().packed() =~= bytes.subrange(pa.len() as int, bytes.len() as int));
        assert(b.last().packed() =~= bytes.subrange(pb.len() as int, bytes.len() as int));
        T::lemma_injective(a.last(), b.last());
        lemma_concat_injective(a.drop_last(), b.drop_last());
        assert forall|i: int| 0 <= i < a.len() implies #[trigger] a[i].same_value(&b[i]) by {
            if i < a.len() - 1 {
                assert(a.drop_last()[i] == a[i]);
                assert(b.drop_last()[i] == b[i]);
            }
        }
    }
}

impl<T: Packed> Packed for Vec<T> {
    open spec fn packed(&self) -> Seq<u8> {
        leb(self@.len()) + concat_packed(self@)
    }

    proof fn lemma_unique(a: Self, b: Self, bytes: Seq<u8>, pos: int) {
        lemma_prefix_concat(leb(a@.len()), concat_packed(a@), bytes, pos);
        lemma_prefix_concat(leb(b@.len()), concat_packed(b@), bytes, pos);
        lemma_leb_unique(a@.len(), b@.len(), bytes, pos);
        lemma_concat_unique(a@, b@, bytes, pos + leb(a@.len()).len());
    }

    open spec fn same_value(&self, other: &Self) -> bool {
        self@.len() == other@.len() && forall|i: int|
            0 <= i < self@.len() ==> #[trigger] self@[i].same_value(&other@[i])
    }

    proof fn lemma_injective(a: Self, b: Self) {
        let bytes = a.packed();
        assert(bytes.subrange(0, bytes.len() as int) =~= bytes);
        lemma_prefix_concat(leb(a@.len()), concat_packed(a@), bytes, 0);
        lemma_prefix_concat(leb(b@.len()), concat_packed(b@), bytes, 0);
        lemma_leb_unique(a@.len(), b@.len(), bytes, 0);
        assert(concat_packed(a@) =~= bytes.subrange(leb(a@.len()).len() as int, bytes.len() as int));
        assert(concat_packed(b@) =~= bytes.subrange(leb(b@.len()).len() as int, bytes.len() as int));
        lemma_concat_injective(a@, b@);
    }

    fn num_bytes(&self) -> (n: usize) {
        let ghost whole = self.packed();
        let n = self.len();
        proof {
            lemma_concat_split(self@, self@.len() as int);
        }
        let mut total: usize = encode_leb(n as u64).len();
        let mut i: usize = 0;
        while i < n
            invariant
                i <= n,
                n == self@.len(),
                whole == self.packed(),
                whole.len() <= usize::MAX,
                total == leb(n as nat).len() + concat_packed(self@.take(i as int)).len(),
            decreases n - i,
        {
            proof {
                lemma_concat_take(self@, i as int);
                lemma_concat_split(self@, i + 1);
                assert(concat_packed(self@.take(i + 1)).len() <= concat_packed(self@).len());
            }
            let k = self[i].num_bytes();
            total = total + k;
            i = i + 1;
        }
        proof {
            assert(self@.take(n as int) =~= self@);
        }
        total
    }

    fn read(bytes: &[u8], pos: &mut usize) -> (r: Result<Self, ReadError>) {
        assert(pow128(10) == 1180591620717411303424) by {
            reveal_with_fuel(pow128, 11);
        }
        let (count, mut p) = match read_leb(bytes, *pos, 10) {
            None => {
                proof {
                    assert forall|v: Vec<T>| !prefix_at(#[trigger] v.packed(), bytes@, *old(pos) as int) by {
                        if prefix_at(v.packed(), bytes@, *old(pos) as int) {
                            lemma_prefix_concat(leb(v@.len()), concat_packed(v@), bytes@, *old(pos) as int);
                            assert(v.len() == v@.len());
                        }
                    }
                }
                return Err(ReadError::ParseError);
            },
            Some(x) => x,
        };
        if count > usize::MAX as u128 {
            proof {
                assert forall|v: Vec<T>| !prefix_at(#[trigger] v.packed(), bytes@, *old(pos) as int) by {
                    if prefix_at(v.packed(), bytes@, *old(pos) as int) {
                        lemma_prefix_concat(leb(v@.len()), concat_packed(v@), bytes@, *old(pos) as int);
                        lemma_leb_unique(v@.len(), count as nat, bytes@, *old(pos) as int);
                        assert(v.len() == v@.len());
                    }
                }
            }
            return Err(ReadError::ParseError);
        }
        let ghost start = p as int;
        let n = count as usize;
        proof {
            assert(Seq::<T>::empty().len() == 0);
            assert(concat_packed(Seq::<T>::empty()) =~= Seq::<u8>::empty());
            assert(bytes@.subrange(start, start) =~= Seq::<u8>::empty());
        }
        let mut items: Vec<T> = Vec::new();
        let mut i: usize = 0;
        while i < n
            invariant
                i <= n,
                n == count,
                items@.len() == i,
                start == *old(pos) + leb(n as nat).len(),
                prefix_at(leb(n as nat), bytes@, *old(pos) as int),
                prefix_at(concat_packed(items@), bytes@, start),
                p == start + concat_packed(items@).len(),
            decreases n - i,
        {
            let item = match T::read(bytes, &mut p) {
                Err(e) => {
                    proof {
                        assert forall|v: Vec<T>| !prefix_at(#[trigger] v.packed(), bytes@, *old(pos) as int) by {
                            if prefix_at(v.packed(), bytes@, *old(pos) as int) {
                                lemma_prefix_concat(leb(v@.len()), concat_packed(v@), bytes@, *old(pos) as int);
                                lemma_leb_unique(v@.len(), n as nat, bytes@, *old(pos) as int);
                                lemma_concat_at(v@, i as int);
                                lemma_prefix_concat(concat_packed(v@.take(i as int)), v@[i as int].packed() + concat_packed(v@.skip(i + 1)), bytes@, start);
                                assert(v@.take(i as int).len() == items@.len());
                                lemma_concat_unique(v@.take(i as int), items@, bytes@, start);
                                lemma_prefix_concat(v@[i as int].packed(), concat_packed(v@.skip(i + 1)), bytes@, start + concat_packed(items@).len());
                            }
                        }
                    }
                    return Err(e);
                },
                Ok(x) => x,
            };
            proof {
                let before = items@;
                assert(before.push(item).drop_last() =~= before);
                lemma_prefix_concat(concat_packed(before), item.packed(), bytes@, start);
            }
            items.push(item);
            i = i + 1;
        }
        proof {
            lemma_prefix_concat(leb(n as nat), concat_packed(items@), bytes@, *old(pos) as int);
        }
        *pos = p;
        Ok(items)
    }

    fn write(&self, bytes: &mut [u8], pos: &mut usize) -> (r: Result<(), WriteError>) {
        let n = self.len();
        let head = encode_leb(n as u64);
        let mut p = *pos;
        let ghost buf0 = bytes@;
        let ghost start = *pos as int;
        match write_encoded(bytes, &mut p, head.as_slice()) {
            Err(e) => {
                return Err(e);
            },
            Ok(()) => {},
        }
        proof {
            assert(self@.take(0) =~= Seq::<T>::empty());
            assert(concat_packed(Seq::<T>::empty()) =~= Seq::<u8>::empty());
            assert(head@ + concat_packed(self@.take(0)) =~= head@);
        }
        let mut i: usize = 0;
        while i < n
            invariant
                i <= n,
                n == self@.len(),
                head@ == leb(n as nat),
                bytes@.len() == buf0.len(),
                buf0 == old(bytes)@,
                *pos == start,
                start == *old(pos),
                start + head@.len() + concat_packed(self@.take(i as int)).len() <= buf0.len(),
                bytes@ == written(buf0, start, head@ + concat_packed(self@.take(i as int))),
                p == start + head@.len() + concat_packed(self@.take(i as int)).len(),
            decreases n - i,
        {
            let ghost mid = bytes@;
            proof {
                lemma_concat_take(self@, i as int);
                lemma_concat_at(self@, i as int);
            }
            match self[i].write(bytes, &mut p) {
                Err(e) => {
                    return Err(e);
                },
                Ok(()) => {},
            }
            proof {
                lemma_written_concat(buf0, start, head@ + concat_packed(self@.take(i as int)), self@[i as int].packed());
                assert(head@ + concat_packed(self@.take(i as int)) + self@[i as int].packed() =~= head@ + concat_packed(self@.take(i + 1)));
            }
            i = i + 1;
        }
        proof {
            assert(self@.take(n as int) =~= self@);
        }
        *pos = p;
        Ok(())
    }
}

impl Packed for u8 {
    open spec fn packed(&self) -> Seq<u8> {
        seq![*self]
    }

    proof fn lemma_unique(a: Self, b: Self, bytes: Seq<u8>, pos: int) {
        assert(a.packed()[0] == b.packed()[0]);
    }

    open spec fn same_value(&self, other: &Self) -> bool {
        *self == *other
    }

    proof fn lemma_injective(a: Self, b: Self) {
        assert(a.packed()[0] == a);
        assert(b.packed()[0] == b);
    }

    fn num_bytes(&self) -> (n: usize) {
        1
    }

    fn read(bytes: &[u8], pos: &mut usize) -> (r: Result<Self, ReadError>) {
        if *pos >= bytes.len() {
            return Err(ReadError::ParseError);
        }
        let v = bytes[*pos];
        proof {
            assert(bytes@.subrange(*pos as int, *pos + 1) =~= seq![v]);
        }
        *pos = *pos + 1;
        Ok(v)
    }

    fn write(&self, bytes: &mut [u8], pos: &mut usize) -> (r: Result<(), WriteError>) {
        let enc = vec![*self];
        proof {
            assert(enc@ =~= self.packed());
        }
        write_encoded(bytes, pos, enc.as_slice())
    }
}

impl Packed for bool {
    open spec fn packed(&self) -> Seq<u8> {
        if *self {
            seq![1u8]
        } else {
            seq![0u8]
        }
    }

    proof fn lemma_unique(a: Self, b: Self, bytes: Seq<u8>, pos: int) {
        assert(a.packed()[0] == bytes[pos]);
        assert(b.packed()[0] == bytes[pos]);
    }

    open spec fn same_value(&self, other: &Self) -> bool {
        *self == *other
    }

    proof fn lemma_injective(a: Self, b: Self) {
        assert(a.packed()[0] == (if a { 1u8 } else { 0u8 }));
        assert(b.packed()[0] == (if b { 1u8 } else { 0u8 }));
    }

    fn num_bytes(&self) -> (n: usize) {
        1
    }

    fn read(bytes: &[u8], pos: &mut usize) -> (r: Result<Self, ReadError>) {
        if *pos >= bytes.len() {
            return Err(ReadError::ParseError);
        }
        let b = bytes[*pos];
        if b > 1 {
            proof {
                assert forall|v: bool| !prefix_at(#[trigger] v.packed(), bytes@, *old(pos) as int) by {
                    if prefix_at(v.packed(), bytes@, *old(pos) as int) {
                        assert(bytes@.subrange(*old(pos) as int, *old(pos) + 1)[0] == b);
                    }
                }
            }
            return Err(ReadError::ParseError);
        }
        let v = b == 1;
        proof {
            assert(bytes@.subrange(*pos as int, *pos + 1) =~= v.packed());
        }
        *pos = *pos + 1;
        Ok(v)
    }

    fn write(&self, bytes: &mut [u8], pos: &mut usize) -> (r: Result<(), WriteError>) {
        let enc = if *self {
            vec![1u8]
        } else {
            vec![0u8]
        };
        proof {
            assert(enc@ =~= self.packed());
        }
        write_encoded(bytes, pos, enc.as_slice())
    }
}

impl Packed for i64 {
    open spec fn packed(&self) -> Seq<u8> {
        le_u64(*self as u64)
    }

    proof fn lemma_unique(a: Self, b: Self, bytes: Seq<u8>, pos: int) {
        lemma_le_u64_injective(a as u64, b as u64);
        assert(a as u64 == b as u64 ==> a == b) by (bit_vector);
    }

    open spec fn same_value(&self, other: &Self) -> bool {
        *self == *other
    }

    proof fn lemma_injective(a: Self, b: Self) {
        lemma_le_u64_injective(a as u64, b as u64);
        assert(a as u64 == b as u64 ==> a == b) by (bit_vector);
    }

    fn num_bytes(&self) -> (n: usize) {
        8
    }

    fn read(bytes: &[u8], pos: &mut usize) -> (r: Result<Self, ReadError>) {
        match u64::read(bytes, pos) {
            Ok(u) => {
                let v = u as i64;
                proof {
                    assert((u as i64) as u64 == u) by (bit_vector);
                }
                Ok(v)
            },
            Err(e) => {
                proof {
                    assert forall|v: i64| !prefix_at(#[trigger] v.packed(), bytes@, *old(pos) as int) by {
                        assert((v as u64).packed() == v.packed());
                    }
                }
                Err(e)
            },
        }
    }

    fn write(&self, bytes: &mut [u8], pos: &mut usize) -> (r: Result<(), WriteError>) {
        let u = *self as u64;
        u.write(bytes, pos)
    }
}

impl<T: Packed> Packed for Option<T> {
    open spec fn packed(&self) -> Seq<u8> {
        match self {
            None => seq![0u8],
            Some(v) => seq![1u8] + v.packed(),
        }
    }

    proof fn lemma_unique(a: Self, b: Self, bytes: Seq<u8>, pos: int) {
        assert(a.packed()[0] == bytes[pos]);
        assert(b.packed()[0] == bytes[pos]);
        match (a, b) {
            (Some(x), Some(y)) => {
                lemma_prefix_concat(seq![1u8], x.packed(), bytes, pos);
                lemma_prefix_concat(seq![1u8], y.packed(), bytes, pos);
                T::lemma_unique(x, y, bytes, pos + 1);
            },
            _ => {},
        }
    }

    open spec fn same_value(&self, other: &Self) -> bool {
        match (self, other) {
            (None, None) => true,
            (Some(x), Some(y)) => x.same_value(y),
            _ => false,
        }
    }

    proof fn lemma_injective(a: Self, b: Self) {
        assert(a.packed()[0] == b.packed()[0]);
        assert(a.packed()[0] == (if a is Some { 1u8 } else { 0u8 }));
        assert(b.packed()[0] == (if b is Some { 1u8 } else { 0u8 }));
        match (a, b) {
            (Some(x), Some(y)) => {
                assert(x.packed() =~= a.packed().subrange(1, a.packed().len() as int));
                assert(y.packed() =~= b.packed().subrange(1, b.packed().len() as int));
                T::lemma_injective(x, y);
            },
            _ => {},
        }
    }

    fn num_bytes(&self) -> (n: usize) {
        match self {
            None => 1,
            Some(v) => 1 + v.num_bytes(),
        }
    }

    fn read(bytes: &[u8], pos: &mut usize) -> (r: Result<Self, ReadError>) {
        if *pos >= bytes.len() {
            return Err(ReadError::ParseError);
        }
        let tag = bytes[*pos];
        let mut p = *pos + 1;
        if tag == 0 {
            proof {
                assert(bytes@.subrange(*pos as int, *pos + 1) =~= seq![0u8]);
            }
            *pos = p;
            return Ok(None);
        }
        if tag != 1 {
            proof {
                assert forall|v: Option<T>| !prefix_at(#[trigger] v.packed(), bytes@, *old(pos) as int) by {
                    if prefix_at(v.packed(), bytes@, *old(pos) as int) {
                        assert(bytes@.subrange(*old(pos) as int, *old(pos) + 1) =~= seq![tag]);
                        assert(v.packed()[0] == bytes@[*old(pos) as int]);
                    }
                }
            }
            return Err(ReadError::ParseError);
        }
        proof {
            assert(bytes@.subrange(*pos as int, *pos + 1) =~= seq![1u8]);
        }
        match T::read(bytes, &mut p) {
            Ok(v) => {
                proof {
                    lemma_prefix_concat(seq![1u8], v.packed(), bytes@, *old(pos) as int);
                }
                *pos = p;
                Ok(Some(v))
            },
            Err(e) => {
                proof {
                    assert forall|v: Option<T>| !prefix_at(#[trigger] v.packed(), bytes@, *old(pos) as int) by {
                        if prefix_at(v.packed(), bytes@, *old(pos) as int) {
                            assert(v.packed()[0] == bytes@[*old(pos) as int]);
                            match v {
                                Some(x) => {
                                    lemma_prefix_concat(seq![1u8], x.packed(), bytes@, *old(pos) as int);
                                },
                                None => {
                                    assert(bytes@.subrange(*old(pos) as int, *old(pos) + 1)[0] == 1u8);
                                },
                            }
                        }
                    }
                }
                Err(e)
            },
        }
    }

    fn write(&self, bytes: &mut [u8], pos: &mut usize) -> (r: Result<(), WriteError>) {
        match self {
            None => {
                let enc = vec![0u8];
                proof {
                    assert(enc@ =~= self.packed());
                }
                write_encoded(bytes, pos, enc.as_slice())
            },
            Some(v) => {
                let len = bytes.len();
                if *pos >= len {
                    return Err(WriteError::NotEnoughSpace);
                }
                let mut p = *pos + 1;
                match v.write(bytes, &mut p) {
                    Err(e) => {
                        return Err(e);
                    },
                    Ok(()) => {},
                }
                let start = *pos;
                bytes[start] = 1u8;
                proof {
                    assert(bytes@ =~= written(old(bytes)@, start as int, self.packed()));
                }
                *pos = p;
                Ok(())
            },
        }
    }
}

/// The little-endian bytes of a `u16`.
pub open spec fn le_u16(v: u16) -> Seq<u8> {
    seq![v as u8, (v >> 8u16) as u8]
}

/// The `u16` whose little-endian bytes are given.
pub open spec fn from_le_u16(b0: u8, b1: u8) -> u16 {
    (b0 as u16) | ((b1 as u16) << 8u16)
}

proof fn lemma_from_le_u16(b0: u8, b1: u8)
    ensures
        ({
            let v = from_le_u16(b0, b1);
            v as u8 == b0 && (v >> 8u16) as u8 == b1
        }),
{
    let v = from_le_u16(b0, b1);
    assert(v as u8 == b0 && (v >> 8u16) as u8 == b1) by (bit_vector)
        requires
            v == (b0 as u16) | ((b1 as u16) << 8u16),
    ;
}

proof fn lemma_le_u16_injective(a: u16, c: u16)
    requires
        le_u16(a) == le_u16(c),
    ensures
        a == c,
{
    assert(le_u16(a)[0] == le_u16(c)[0]);
    assert(le_u16(a)[1] == le_u16(c)[1]);
    assert(a as u8 == c as u8 && (a >> 8u16) as u8 == (c >> 8u16) as u8 ==> a == c) by (bit_vector);
}

fn encode_u16(v: u16) -> (r: Vec<u8>)
    ensures
        r@ == le_u16(v),
{
    let r = vec![v as u8, (v >> 8u16) as u8];
    assert(r@ =~= le_u16(v));
    r
}

impl Packed for u16 {
    open spec fn packed(&self) -> Seq<u8> {
        le_u16(*self)
    }

    proof fn lemma_unique(a: Self, b: Self, bytes: Seq<u8>, pos: int) {
        lemma_le_u16_injective(a, b);
    }

    open spec fn same_value(&self, other: &Self) -> bool {
        *self == *other
    }

    proof fn lemma_injective(a: Self, b: Self) {
        lemma_le_u16_injective(a, b);
    }

    fn num_bytes(&self) -> (n: usize) {
        2
    }

    fn read(bytes: &[u8], pos: &mut usize) -> (r: Result<Self, ReadError>) {
        match take_bytes(bytes, *pos, 2) {
            None => Err(ReadError::ParseError),
            Some(b) => {
    let b0 = b[0];
    let b1 = b[1];
                let v = (b0 as u16) | ((b1 as u16) << 8u16);
                proof {
                    lemma_from_le_u16(b[0], b[1]);
                    assert(le_u16(v) =~= b@);
                }
                *pos = *pos + 2;
                Ok(v)
            },
        }
    }

    fn write(&self, bytes: &mut [u8], pos: &mut usize) -> (r: Result<(), WriteError>) {
        let enc = encode_u16(*self);
        write_encoded(bytes, pos, enc.as_slice())
    }
}

/// The little-endian bytes of a `u32`.
pub open spec fn le_u32(v: u32) -> Seq<u8> {
    seq![v as u8, (v >> 8u32) as u8, (v >> 16u32) as u8, (v >> 24u32) as u8]
}

/// The `u32` whose little-endian bytes are given.
pub open spec fn from_le_u32(b0: u8, b1: u8, b2: u8, b3: u8) -> u32 {
    (b0 as u32) | ((b1 as u32) << 8u32) | ((b2 as u32) << 16u32) | ((b3 as u32) << 24u32)
}

proof fn lemma_from_le_u32(b0: u8, b1: u8, b2: u8, b3: u8)
    ensures
        ({
            let v = from_le_u32(b0, b1, b2, b3);
            v as u8 == b0 && (v >> 8u32) as u8 == b1 && (v >> 16u32) as u8 == b2 && (v >> 24u32) as u8 == b3
        }),
{
    let v = from_le_u32(b0, b1, b2, b3);
    assert(v as u8 == b0 && (v >> 8u32) as u8 == b1 && (v >> 16u32) as u8 == b2 && (v >> 24u32) as u8 == b3) by (bit_vector)
        requires
            v == (b0 as u32) | ((b1 as u32) << 8u32) | ((b2 as u32) << 16u32) | ((b3 as u32) << 24u32),
    ;
}

proof fn lemma_le_u32_injective(a: u32, c: u32)
    requires
        le_u32(a) == le_u32(c),
    ensures
        a == c,
{
    assert(le_u32(a)[0] == le_u32(c)[0]);
    assert(le_u32(a)[1] == le_u32(c)[1]);
    assert(le_u32(a)[2] == le_u32(c)[2]);
    assert(le_u32(a)[3] == le_u32(c)[3]);
    assert(a as u8 == c as u8 && (a >> 8u32) as u8 == (c >> 8u32) as u8 && (a >> 16u32) as u8 == (c >> 16u32) as u8 && (a >> 24u32) as u8 == (c >> 24u32) as u8 ==> a == c) by (bit_vector);
}

fn encode_u32(v: u32) -> (r: Vec<u8>)
    ensures
        r@ == le_u32(v),
{
    let r = vec![v as u8, (v >> 8u32) as u8, (v >> 16u32) as u8, (v >> 24u32) as u8];
    assert(r@ =~= le_u32(v));
    r
}

impl Packed for u32 {
    open spec fn packed(&self) -> Seq<u8> {
        le_u32(*self)
    }

    proof fn lemma_unique(a: Self, b: Self, bytes: Seq<u8>, pos: int) {
        lemma_le_u32_injective(a, b);
    }

    open spec fn same_value(&self, other: &Self) -> bool {
        *self == *other
    }

    proof fn lemma_injective(a: Self, b: Self) {
        lemma_le_u32_injective(a, b);
    }

    fn num_bytes(&self) -> (n: usize) {
        4
    }

    fn read(bytes: &[u8], pos: &mut usize) -> (r: Result<Self, ReadError>) {
        match take_bytes(bytes, *pos, 4) {
            None => Err(ReadError::ParseError),
            Some(b) => {
    let b0 = b[0];
    let b1 = b[1];
    let b2 = b[2];
    let b3 = b[3];
                let v = (b0 as u32) | ((b1 as u32) << 8u32) | ((b2 as u32) << 16u32) | ((b3 as u32) << 24u32);
                proof {
                    lemma_from_le_u32(b[0], b[1], b[2], b[3]);
                    assert(le_u32(v) =~= b@);
                }
                *pos = *pos + 4;
                Ok(v)
            },
        }
    }

    fn write(&self, bytes: &mut [u8], pos: &mut usize) -> (r: Result<(), WriteError>) {
        let enc = encode_u32(*self);
        write_encoded(bytes, pos, enc.as_slice())
    }
}

/// The little-endian bytes of a `u64`.
pub open spec fn le_u64(v: u64) -> Seq<u8> {
    seq![v as u8, (v >> 8u64) as u8, (v >> 16u64) as u8, (v >> 24u64) as u8, (v >> 32u64) as u8, (v >> 40u64) as u8, (v >> 48u64) as u8, (v >> 56u64) as u8]
}

/// The `u64` whose little-endian bytes are given.
pub open spec fn from_le_u64(b0: u8, b1: u8, b2: u8, b3: u8, b4: u8, b5: u8, b6: u8, b7: u8) -> u64 {
    (b0 as u64) | ((b1 as u64) << 8u64) | ((b2 as u64) << 16u64) | ((b3 as u64) << 24u64) | ((b4 as u64) << 32u64) | ((b5 as u64) << 40u64) | ((b6 as u64) << 48u64) | ((b7 as u64) << 56u64)
}

proof fn lemma_from_le_u64(b0: u8, b1: u8, b2: u8, b3: u8, b4: u8, b5: u8, b6: u8, b7: u8)
    ensures
        ({
            let v = from_le_u64(b0, b1, b2, b3, b4, b5, b6, b7);
            v as u8 == b0 && (v >> 8u64) as u8 == b1 && (v >> 16u64) as u8 == b2 && (v >> 24u64) as u8 == b3 && (v >> 32u64) as u8 == b4 && (v >> 40u64) as u8 == b5 && (v >> 48u64) as u8 == b6 && (v >> 56u64) as u8 == b7
        }),
{
    let v = from_le_u64(b0, b1, b2, b3, b4, b5, b6, b7);
    assert(v as u8 == b0 && (v >> 8u64) as u8 == b1 && (v >> 16u64) as u8 == b2 && (v >> 24u64) as u8 == b3 && (v >> 32u64) as u8 == b4 && (v >> 40u64) as u8 == b5 && (v >> 48u64) as u8 == b6 && (v >> 56u64) as u8 == b7) by (bit_vector)
        requires
            v == (b0 as u64) | ((b1 as u64) << 8u64) | ((b2 as u64) << 16u64) | ((b3 as u64) << 24u64) | ((b4 as u64) << 32u64) | ((b5 as u64) << 40u64) | ((b6 as u64) << 48u64) | ((b7 as u64) << 56u64),
    ;
}

proof fn lemma_le_u64_injective(a: u64, c: u64)
    requires
        le_u64(a) == le_u64(c),
    ensures
        a == c,
{
    assert(le_u64(a)[0] == le_u64(c)[0]);
    assert(le_u64(a)[1] == le_u64(c)[1]);
    assert(le_u64(a)[2] == le_u64(c)[2]);
    assert(le_u64(a)[3] == le_u64(c)[3]);
    assert(le_u64(a)[4] == le_u64(c)[4]);
    assert(le_u64(a)[5] == le_u64(c)[5]);
    assert(le_u64(a)[6] == le_u64(c)[6]);
    assert(le_u64(a)[7] == le_u64(c)[7]);
    assert(a as u8 == c as u8 && (a >> 8u64) as u8 == (c >> 8u64) as u8 && (a >> 16u64) as u8 == (c >> 16u64) as u8 && (a >> 24u64) as u8 == (c >> 24u64) as u8 && (a >> 32u64) as u8 == (c >> 32u64) as u8 && (a >> 40u64) as u8 == (c >> 40u64) as u8 && (a >> 48u64) as u8 == (c >> 48u64) as u8 && (a >> 56u64) as u8 == (c >> 56u64) as u8 ==> a == c) by (bit_vector);
}

fn encode_u64(v: u64) -> (r: Vec<u8>)
    ensures
        r@ == le_u64(v),
{
    let r = vec![v as u8, (v >> 8u64) as u8, (v >> 16u64) as u8, (v >> 24u64) as u8, (v >> 32u64) as u8, (v >> 40u64) as u8, (v >> 48u64) as u8, (v >> 56u64) as u8];
    assert(r@ =~= le_u64(v));
    r
}

impl Packed for u64 {
    open spec fn packed(&self) -> Seq<u8> {
        le_u64(*self)
    }

    proof fn lemma_unique(a: Self, b: Self, bytes: Seq<u8>, pos: int) {
        lemma_le_u64_injective(a, b);
    }

    open spec fn same_value(&self, other: &Self) -> bool {
        *self == *other
    }

    proof fn lemma_injective(a: Self, b: Self) {
        lemma_le_u64_injective(a, b);
    }

    fn num_bytes(&self) -> (n: usize) {
        8
    }

    fn read(bytes: &[u8], pos: &mut usize) -> (r: Result<Self, ReadError>) {
        match take_bytes(bytes, *pos, 8) {
            None => Err(ReadError::ParseError),
            Some(b) => {
    let b0 = b[0];
    let b1 = b[1];
    let b2 = b[2];
    let b3 = b[3];
    let b4 = b[4];
    let b5 = b[5];
    let b6 = b[6];
    let b7 = b[7];
                let v = (b0 as u64) | ((b1 as u64) << 8u64) | ((b2 as u64) << 16u64) | ((b3 as u64) << 24u64) | ((b4 as u64) << 32u64) | ((b5 as u64) << 40u64) | ((b6 as u64) << 48u64) | ((b7 as u64) << 56u64);
                proof {
                    lemma_from_le_u64(b[0], b[1], b[2], b[3], b[4], b[5], b[6], b[7]);
                    assert(le_u64(v) =~= b@);
                }
                *pos = *pos + 8;
                Ok(v)
            },
        }
    }

    fn write(&self, bytes: &mut [u8], pos: &mut usize) -> (r: Result<(), WriteError>) {
        let enc = encode_u64(*self);
        write_encoded(bytes, pos, enc.as_slice())
    }
}


impl Packed for Name {
    open spec fn packed(&self) -> Seq<u8> {
        self.0.packed()
    }

    proof fn lemma_unique(a: Self, b: Self, bytes: Seq<u8>, pos: int) {
        let ghost mut q = pos;
        <u64 as Packed>::lemma_unique(a.0, b.0, bytes, q);
    }

    open spec fn same_value(&self, other: &Self) -> bool {
        &&& self.0.same_value(&other.0)
    }

    proof fn lemma_injective(a: Self, b: Self) {
        let bytes = a.packed();
        let pos: int = 0;
        assert(bytes.subrange(0, bytes.len() as int) =~= bytes);
        let ghost mut q = pos;
        <u64 as Packed>::lemma_unique(a.0, b.0, bytes, q);
        <u64 as Packed>::lemma_injective(a.0, b.0);
    }

    fn num_bytes(&self) -> (n: usize) {
        self.0.num_bytes()
    }

    fn read(bytes: &[u8], pos: &mut usize) -> (r: Result<Self, ReadError>) {
        let mut p = *pos;
        let ghost q0: int = p as int;
        let x0 = match <u64 as Packed>::read(bytes, &mut p) {
            Ok(x) => x,
            Err(e) => {
                proof {
                    assert forall|v: Name| !prefix_at(#[trigger] v.packed(), bytes@, *old(pos) as int) by {
                        if prefix_at(v.packed(), bytes@, *old(pos) as int) {
                        }
                    }
                }
                return Err(e);
            },
        };
        let v = Name(x0);
        proof {
        }
        *pos = p;
        Ok(v)
    }

    fn write(&self, bytes: &mut [u8], pos: &mut usize) -> (r: Result<(), WriteError>) {
        proof {
            assert(self.packed().len() <= 8);
        }
        let n = self.num_bytes();
        let len = bytes.len();
        if *pos > len || n > len - *pos {
            return Err(WriteError::NotEnoughSpace);
        }
        let mut p = *pos;
        let ghost start = *pos as int;
        let ghost buf0 = bytes@;
        let _ = self.0.write(bytes, &mut p);
        *pos = p;
        Ok(())
    }
}

impl Packed for SymbolCode {
    open spec fn packed(&self) -> Seq<u8> {
        self.0.packed()
    }

    proof fn lemma_unique(a: Self, b: Self, bytes: Seq<u8>, pos: int) {
        let ghost mut q = pos;
        <u64 as Packed>::lemma_unique(a.0, b.0, bytes, q);
    }

    open spec fn same_value(&self, other: &Self) -> bool {
        &&& self.0.same_value(&other.0)
    }

    proof fn lemma_injective(a: Self, b: Self) {
        let bytes = a.packed();
        let pos: int = 0;
        assert(bytes.subrange(0, bytes.len() as int) =~= bytes);
        let ghost mut q = pos;
        <u64 as Packed>::lemma_unique(a.0, b.0, bytes, q);
        <u64 as Packed>::lemma_injective(a.0, b.0);
    }

    fn num_bytes(&self) -> (n: usize) {
        self.0.num_bytes()
    }

    fn read(bytes: &[u8], pos: &mut usize) -> (r: Result<Self, ReadError>) {
        let mut p = *pos;
        let ghost q0: int = p as int;
        let x0 = match <u64 as Packed>::read(bytes, &mut p) {
            Ok(x) => x,
            Err(e) => {
                proof {
                    assert forall|v: SymbolCode| !prefix_at(#[trigger] v.packed(), bytes@, *old(pos) as int) by {
                        if prefix_at(v.packed(), bytes@, *old(pos) as int) {
                        }
                    }
                }
                return Err(e);
            },
        };
        let v = SymbolCode(x0);
        proof {
        }
        *pos = p;
        Ok(v)
    }

    fn write(&self, bytes: &mut [u8], pos: &mut usize) -> (r: Result<(), WriteError>) {
        proof {
            assert(self.packed().len() <= 8);
        }
        let n = self.num_bytes();
        let len = bytes.len();
        if *pos > len || n > len - *pos {
            return Err(WriteError::NotEnoughSpace);
        }
        let mut p = *pos;
        let ghost start = *pos as int;
        let ghost buf0 = bytes@;
        let _ = self.0.write(bytes, &mut p);
        *pos = p;
        Ok(())
    }
}

impl Packed for Symbol {
    open spec fn packed(&self) -> Seq<u8> {
        self.0.packed()
    }

    proof fn lemma_unique(a: Self, b: Self, bytes: Seq<u8>, pos: int) {
        let ghost mut q = pos;
        <u64 as Packed>::lemma_unique(a.0, b.0, bytes, q);
    }

    open spec fn same_value(&self, other: &Self) -> bool {
        &&& self.0.same_value(&other.0)
    }

    proof fn lemma_injective(a: Self, b: Self) {
        let bytes = a.packed();
        let pos: int = 0;
        assert(bytes.subrange(0, bytes.len() as int) =~= bytes);
        let ghost mut q = pos;
        <u64 as Packed>::lemma_unique(a.0, b.0, bytes, q);
        <u64 as Packed>::lemma_injective(a.0, b.0);
    }

    fn num_bytes(&self) -> (n: usize) {
        self.0.num_bytes()
    }

    fn read(bytes: &[u8], pos: &mut usize) -> (r: Result<Self, ReadError>) {
        let mut p = *pos;
        let ghost q0: int = p as int;
        let x0 = match <u64 as Packed>::read(bytes, &mut p) {
            Ok(x) => x,
            Err(e) => {
                proof {
                    assert forall|v: Symbol| !prefix_at(#[trigger] v.packed(), bytes@, *old(pos) as int) by {
                        if prefix_at(v.packed(), bytes@, *old(pos) as int) {
                        }
                    }
                }
                return Err(e);
            },
        };
        let v = Symbol(x0);
        proof {
        }
        *pos = p;
        Ok(v)
    }

    fn write(&self, bytes: &mut [u8], pos: &mut usize) -> (r: Result<(), WriteError>) {
        proof {
            assert(self.packed().len() <= 8);
        }
        let n = self.num_bytes();
        let len = bytes.len();
        if *pos > len || n > len - *pos {
            return Err(WriteError::NotEnoughSpace);
        }
        let mut p = *pos;
        let ghost start = *pos as int;
        let ghost buf0 = bytes@;
        let _ = self.0.write(bytes, &mut p);
        *pos = p;
        Ok(())
    }
}

impl Packed for Asset {
    open spec fn packed(&self) -> Seq<u8> {
        self.amount.packed() + self.symbol.packed()
    }

    proof fn lemma_unique(a: Self, b: Self, bytes: Seq<u8>, pos: int) {
        let ghost mut q = pos;
        lemma_prefix_concat(a.amount.packed(), a.symbol.packed(), bytes, q);
        lemma_prefix_concat(b.amount.packed(), b.symbol.packed(), bytes, q);
        <i64 as Packed>::lemma_unique(a.amount, b.amount, bytes, q);
        q = q + a.amount.packed().len();
        <Symbol as Packed>::lemma_unique(a.symbol, b.symbol, bytes, q);
    }

    open spec fn same_value(&self, other: &Self) -> bool {
        &&& self.amount.same_value(&other.amount)
        &&& self.symbol.same_value(&other.symbol)
    }

    proof fn lemma_injective(a: Self, b: Self) {
        let bytes = a.packed();
        let pos: int = 0;
        assert(bytes.subrange(0, bytes.len() as int) =~= bytes);
        let ghost mut q = pos;
        lemma_prefix_concat(a.amount.packed(), a.symbol.packed(), bytes, q);
        lemma_prefix_concat(b.amount.packed(), b.symbol.packed(), bytes, q);
        <i64 as Packed>::lemma_unique(a.amount, b.amount, bytes, q);
        <i64 as Packed>::lemma_injective(a.amount, b.amount);
        q = q + a.amount.packed().len();
        <Symbol as Packed>::lemma_unique(a.symbol, b.symbol, bytes, q);
        <Symbol as Packed>::lemma_injective(a.symbol, b.symbol);
    }

    fn num_bytes(&self) -> (n: usize) {
        self.amount.num_bytes() + self.symbol.num_bytes()
    }

    fn read(bytes: &[u8], pos: &mut usize) -> (r: Result<Self, ReadError>) {
        let mut p = *pos;
        let ghost q0: int = p as int;
        let x0 = match <i64 as Packed>::read(bytes, &mut p) {
            Ok(x) => x,
            Err(e) => {
                proof {
                    assert forall|v: Asset| !prefix_at(#[trigger] v.packed(), bytes@, *old(pos) as int) by {
                        if prefix_at(v.packed(), bytes@, *old(pos) as int) {
                            lemma_prefix_concat(v.amount.packed(), v.symbol.packed(), bytes@, q0);
                        }
                    }
                }
                return Err(e);
            },
        };
        let ghost q1: int = p as int;
        let x1 = match <Symbol as Packed>::read(bytes, &mut p) {
            Ok(x) => x,
            Err(e) => {
                proof {
                    assert forall|v: Asset| !prefix_at(#[trigger] v.packed(), bytes@, *old(pos) as int) by {
                        if prefix_at(v.packed(), bytes@, *old(pos) as int) {
                            lemma_prefix_concat(v.amount.packed(), v.symbol.packed(), bytes@, q0);
                            <i64 as Packed>::lemma_unique(v.amount, x0, bytes@, q0);
                        }
                    }
                }
                return Err(e);
            },
        };
        let v = Asset { amount: x0, symbol: x1 };
        proof {
            lemma_prefix_concat(v.amount.packed(), v.symbol.packed(), bytes@, q0);
        }
        *pos = p;
        Ok(v)
    }

    fn write(&self, bytes: &mut [u8], pos: &mut usize) -> (r: Result<(), WriteError>) {
        proof {
            assert(self.packed().len() <= 16);
        }
        let n = self.num_bytes();
        let len = bytes.len();
        if *pos > len || n > len - *pos {
            return Err(WriteError::NotEnoughSpace);
        }
        let mut p = *pos;
        let ghost start = *pos as int;
        let ghost buf0 = bytes@;
        let _ = self.amount.write(bytes, &mut p);
        let _ = self.symbol.write(bytes, &mut p);
        proof {
            lemma_written_concat(buf0, start, self.amount.packed(), self.symbol.packed());
        }
        proof {
            assert(self.amount.packed() + self.symbol.packed() =~= self.packed());
        }
        *pos = p;
        Ok(())
    }
}

impl Packed for Microseconds {
    open spec fn packed(&self) -> Seq<u8> {
        self.0.packed()
    }

    proof fn lemma_unique(a: Self, b: Self, bytes: Seq<u8>, pos: int) {
        let ghost mut q = pos;
        <i64 as Packed>::lemma_unique(a.0, b.0, bytes, q);
    }

    open spec fn same_value(&self, other: &Self) -> bool {
        &&& self.0.same_value(&other.0)
    }

    proof fn lemma_injective(a: Self, b: Self) {
        let bytes = a.packed();
        let pos: int = 0;
        assert(bytes.subrange(0, bytes.len() as int) =~= bytes);
        let ghost mut q = pos;
        <i64 as Packed>::lemma_unique(a.0, b.0, bytes, q);
        <i64 as Packed>::lemma_injective(a.0, b.0);
    }

    fn num_bytes(&self) -> (n: usize) {
        self.0.num_bytes()
    }

    fn read(bytes: &[u8], pos: &mut usize) -> (r: Result<Self, ReadError>) {
        let mut p = *pos;
        let ghost q0: int = p as int;
        let x0 = match <i64 as Packed>::read(bytes, &mut p) {
            Ok(x) => x,
            Err(e) => {
                proof {
                    assert forall|v: Microseconds| !prefix_at(#[trigger] v.packed(), bytes@, *old(pos) as int) by {
                        if prefix_at(v.packed(), bytes@, *old(pos) as int) {
                        }
                    }
                }
                return Err(e);
            },
        };
        let v = Microseconds(x0);
        proof {
        }
        *pos = p;
        Ok(v)
    }

    fn write(&self, bytes: &mut [u8], pos: &mut usize) -> (r: Result<(), WriteError>) {
        proof {
            assert(self.packed().len() <= 8);
        }
        let n = self.num_bytes();
        let len = bytes.len();
        if *pos > len || n > len - *pos {
            return Err(WriteError::NotEnoughSpace);
        }
        let mut p = *pos;
        let ghost start = *pos as int;
        let ghost buf0 = bytes@;
        let _ = self.0.write(bytes, &mut p);
        *pos = p;
        Ok(())
    }
}

impl Packed for TimePoint {
    open spec fn packed(&self) -> Seq<u8> {
        self.elapsed.packed()
    }

    proof fn lemma_unique(a: Self, b: Self, bytes: Seq<u8>, pos: int) {
        let ghost mut q = pos;
        <Microseconds as Packed>::lemma_unique(a.elapsed, b.elapsed, bytes, q);
    }

    open spec fn same_value(&self, other: &Self) -> bool {
        &&& self.elapsed.same_value(&other.elapsed)
    }

    proof fn lemma_injective(a: Self, b: Self) {
        let bytes = a.packed();
        let pos: int = 0;
        assert(bytes.subrange(0, bytes.len() as int) =~= bytes);
        let ghost mut q = pos;
        <Microseconds as Packed>::lemma_unique(a.elapsed, b.elapsed, bytes, q);
        <Microseconds as Packed>::lemma_injective(a.elapsed, b.elapsed);
    }

    fn num_bytes(&self) -> (n: usize) {
        self.elapsed.num_bytes()
    }

    fn read(bytes: &[u8], pos: &mut usize) -> (r: Result<Self, ReadError>) {
        let mut p = *pos;
        let ghost q0: int = p as int;
        let x0 = match <Microseconds as Packed>::read(bytes, &mut p) {
            Ok(x) => x,
            Err(e) => {
                proof {
                    assert forall|v: TimePoint| !prefix_at(#[trigger] v.packed(), bytes@, *old(pos) as int) by {
                        if prefix_at(v.packed(), bytes@, *old(pos) as int) {
                        }
                    }
                }
                return Err(e);
            },
        };
        let v = TimePoint { elapsed: x0 };
        proof {
        }
        *pos = p;
        Ok(v)
    }

    fn write(&self, bytes: &mut [u8], pos: &mut usize) -> (r: Result<(), WriteError>) {
        proof {
            assert(self.packed().len() <= 8);
        }
        let n = self.num_bytes();
        let len = bytes.len();
        if *pos > len || n > len - *pos {
            return Err(WriteError::NotEnoughSpace);
        }
        let mut p = *pos;
        let ghost start = *pos as int;
        let ghost buf0 = bytes@;
        let _ = self.elapsed.write(bytes, &mut p);
        *pos = p;
        Ok(())
    }
}

impl Packed for TimePointSec {
    open spec fn packed(&self) -> Seq<u8> {
        self.utc_seconds.packed()
    }

    proof fn lemma_unique(a: Self, b: Self, bytes: Seq<u8>, pos: int) {
        let ghost mut q = pos;
        <u32 as Packed>::lemma_unique(a.utc_seconds, b.utc_seconds, bytes, q);
    }

    open spec fn same_value(&self, other: &Self) -> bool {
        &&& self.utc_seconds.same_value(&other.utc_seconds)
    }

    proof fn lemma_injective(a: Self, b: Self) {
        let bytes = a.packed();
        let pos: int = 0;
        assert(bytes.subrange(0, bytes.len() as int) =~= bytes);
        let ghost mut q = pos;
        <u32 as Packed>::lemma_unique(a.utc_seconds, b.utc_seconds, bytes, q);
        <u32 as Packed>::lemma_injective(a.utc_seconds, b.utc_seconds);
    }

    fn num_bytes(&self) -> (n: usize) {
        self.utc_seconds.num_bytes()
    }

    fn read(bytes: &[u8], pos: &mut usize) -> (r: Result<Self, ReadError>) {
        let mut p = *pos;
        let ghost q0: int = p as int;
        let x0 = match <u32 as Packed>::read(bytes, &mut p) {
            Ok(x) => x,
            Err(e) => {
                proof {
                    assert forall|v: TimePointSec| !prefix_at(#[trigger] v.packed(), bytes@, *old(pos) as int) by {
                        if prefix_at(v.packed(), bytes@, *old(pos) as int) {
                        }
                    }
                }
                return Err(e);
            },
        };
        let v = TimePointSec { utc_seconds: x0 };
        proof {
        }
        *pos = p;
        Ok(v)
    }

    fn write(&self, bytes: &mut [u8], pos: &mut usize) -> (r: Result<(), WriteError>) {
        proof {
            assert(self.packed().len() <= 4);
        }
        let n = self.num_bytes();
        let len = bytes.len();
        if *pos > len || n > len - *pos {
            return Err(WriteError::NotEnoughSpace);
        }
        let mut p = *pos;
        let ghost start = *pos as int;
        let ghost buf0 = bytes@;
        let _ = self.utc_seconds.write(bytes, &mut p);
        *pos = p;
        Ok(())
    }
}

impl Packed for BlockTimestamp {
    open spec fn packed(&self) -> Seq<u8> {
        self.slot.packed()
    }

    proof fn lemma_unique(a: Self, b: Self, bytes: Seq<u8>, pos: int) {
        let ghost mut q = pos;
        <u32 as Packed>::lemma_unique(a.slot, b.slot, bytes, q);
    }

    open spec fn same_value(&self, other: &Self) -> bool {
        &&& self.slot.same_value(&other.slot)
    }

    proof fn lemma_injective(a: Self, b: Self) {
        let bytes = a.packed();
        let pos: int = 0;
        assert(bytes.subrange(0, bytes.len() as int) =~= bytes);
        let ghost mut q = pos;
        <u32 as Packed>::lemma_unique(a.slot, b.slot, bytes, q);
        <u32 as Packed>::lemma_injective(a.slot, b.slot);
    }

    fn num_bytes(&self) -> (n: usize) {
        self.slot.num_bytes()
    }

    fn read(bytes: &[u8], pos: &mut usize) -> (r: Result<Self, ReadError>) {
        let mut p = *pos;
        let ghost q0: int = p as int;
        let x0 = match <u32 as Packed>::read(bytes, &mut p) {
            Ok(x) => x,
            Err(e) => {
                proof {
                    assert forall|v: BlockTimestamp| !prefix_at(#[trigger] v.packed(), bytes@, *old(pos) as int) by {
                        if prefix_at(v.packed(), bytes@, *old(pos) as int) {
                        }
                    }
                }
                return Err(e);
            },
        };
        let v = BlockTimestamp { slot: x0 };
        proof {
        }
        *pos = p;
        Ok(v)
    }

    fn write(&self, bytes: &mut [u8], pos: &mut usize) -> (r: Result<(), WriteError>) {
        proof {
            assert(self.packed().len() <= 4);
        }
        let n = self.num_bytes();
        let len = bytes.len();
        if *pos > len || n > len - *pos {
            return Err(WriteError::NotEnoughSpace);
        }
        let mut p = *pos;
        let ghost start = *pos as int;
        let ghost buf0 = bytes@;
        let _ = self.slot.write(bytes, &mut p);
        *pos = p;
        Ok(())
    }
}

/// `Asset` is encoded as its fields, one after the other, in the order
/// `amount`, `symbol`.
pub proof fn lemma_asset_layout(a: Asset)
    ensures
        a.packed() == a.amount.packed() + a.symbol.packed(),
{
    assert(a.packed() =~= a.amount.packed() + a.symbol.packed());
}

} // verus!
