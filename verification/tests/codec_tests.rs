use pulse_cdt::args::{DelegatebwArgs, TransferArgs};
use pulse_cdt::asset::Asset;
use pulse_cdt::codec::{Packed, ReadError, VarUint32, WriteError};
use pulse_cdt::name::Name;
use pulse_cdt::symbol::Symbol;
use pulse_cdt::tables::{Account, CurrencyStats, ReturnBucket, RexReturnBuckets, UserResources, VotersXPR};
use pulse_cdt::time::{TimePoint, TimePointSec};

const XPR4: u64 = 1380997124;

fn encode<T: Packed>(v: &T) -> Vec<u8> {
    let mut buf = vec![0u8; v.num_bytes()];
    let mut pos = 0;
    v.write(&mut buf, &mut pos).unwrap();
    assert_eq!(pos, buf.len());
    buf
}

#[test]
fn integers_are_little_endian() {
    assert_eq!(encode(&0x0102030405060708u64), vec![8, 7, 6, 5, 4, 3, 2, 1]);
    assert_eq!(encode(&0x01020304u32), vec![4, 3, 2, 1]);
    assert_eq!(encode(&0x0102u16), vec![2, 1]);
    assert_eq!(encode(&-1i64), vec![255; 8]);
    assert_eq!(encode(&7u8), vec![7]);
    let mut pos = 0;
    assert_eq!(i64::read(&[254, 255, 255, 255, 255, 255, 255, 255], &mut pos), Ok(-2));
    assert_eq!(pos, 8);
}

#[test]
fn read_after_write_gives_back() {
    let sym = Symbol::new(XPR4);
    let row = UserResources {
        owner: Name::new(3773036822876127232),
        net_weight: Asset::new(5, sym),
        cpu_weight: Asset::new(-6, sym),
        ram_bytes: 1400,
    };
    let bytes = encode(&row);
    assert_eq!(bytes.len(), 8 + 16 + 16 + 8);
    let mut pos = 0;
    assert_eq!(UserResources::read(&bytes, &mut pos), Ok(row));
    assert_eq!(pos, bytes.len());
}

#[test]
fn bool_and_option() {
    assert_eq!(encode(&true), vec![1]);
    let mut pos = 0;
    assert_eq!(bool::read(&[2], &mut pos), Err(ReadError::ParseError));
    assert_eq!(pos, 0);
    assert_eq!(encode(&None::<u64>), vec![0]);
    assert_eq!(encode(&Some(1u64)), vec![1, 1, 0, 0, 0, 0, 0, 0, 0]);
    let mut pos = 0;
    assert_eq!(Option::<u64>::read(&[2, 0], &mut pos), Err(ReadError::ParseError));
    let v = VotersXPR {
        owner: Name::new(1),
        staked: 2,
        isqualified: true,
        claimamount: 3,
        lastclaim: 4,
        startstake: Some(5),
        startqualif: None,
    };
    let bytes = encode(&v);
    let mut pos = 0;
    let back = VotersXPR::read(&bytes, &mut pos).unwrap();
    assert_eq!(back.startstake, Some(5));
    assert_eq!(back.startqualif, None);
    assert!(back.isqualified);
}

#[test]
fn varuint_encoding() {
    assert_eq!(encode(&VarUint32(0)), vec![0]);
    assert_eq!(encode(&VarUint32(127)), vec![127]);
    assert_eq!(encode(&VarUint32(300)), vec![0xAC, 0x02]);
    assert_eq!(encode(&VarUint32(u32::MAX)), vec![0xFF, 0xFF, 0xFF, 0xFF, 0x0F]);
    let mut pos = 0;
    assert_eq!(VarUint32::read(&[0xAC, 0x02], &mut pos), Ok(VarUint32(300)));
    assert_eq!(pos, 2);
    let mut pos = 0;
    assert_eq!(VarUint32::read(&[0x80, 0x00], &mut pos), Err(ReadError::ParseError));
    let mut pos = 0;
    assert_eq!(VarUint32::read(&[0xFF, 0xFF, 0xFF, 0xFF, 0x1F], &mut pos), Err(ReadError::ParseError));
    let mut pos = 0;
    assert_eq!(VarUint32::read(&[0x80], &mut pos), Err(ReadError::ParseError));
}

#[test]
fn vectors_are_prefixed_by_length() {
    assert_eq!(encode(&vec![1u8, 2, 3]), vec![3, 1, 2, 3]);
    assert_eq!(encode(&Vec::<u16>::new()), vec![0]);
    assert_eq!(encode(&vec![0x0102u16]), vec![1, 2, 1]);
    let mut pos = 0;
    assert_eq!(Vec::<u8>::read(&[2, 9, 8, 7], &mut pos), Ok(vec![9, 8]));
    assert_eq!(pos, 3);
    let mut pos = 0;
    assert_eq!(Vec::<u8>::read(&[3, 9, 8], &mut pos), Err(ReadError::ParseError));
    assert_eq!(pos, 0);
}

#[test]
fn write_needs_room() {
    let mut buf = vec![0u8; 7];
    let mut pos = 0;
    assert_eq!(5u64.write(&mut buf, &mut pos), Err(WriteError::NotEnoughSpace));
    assert_eq!(pos, 0);
    assert_eq!(buf, vec![0u8; 7]);
    let mut pos = 3;
    assert_eq!(5u32.write(&mut buf, &mut pos), Ok(()));
    assert_eq!(buf, vec![0, 0, 0, 5, 0, 0, 0]);
    assert_eq!(pos, 7);
}

#[test]
fn read_needs_bytes() {
    let mut pos = 0;
    assert_eq!(u64::read(&[1, 2, 3], &mut pos), Err(ReadError::ParseError));
    let mut pos = 5;
    assert_eq!(u8::read(&[1, 2, 3], &mut pos), Err(ReadError::ParseError));
    let mut pos = 1;
    assert_eq!(u8::read(&[1, 2, 3], &mut pos), Ok(2));
}

#[test]
fn action_arguments() {
    let sym = Symbol::new(XPR4);
    let args = TransferArgs {
        from: Name::new(1),
        to: Name::new(2),
        quantity: Asset::new(10000, sym),
        memo: b"hi".to_vec(),
    };
    let bytes = encode(&args);
    assert_eq!(bytes.len(), 8 + 8 + 16 + 3);
    assert_eq!(&bytes[32..], &[2, b'h', b'i']);
    let mut pos = 0;
    let back = TransferArgs::read(&bytes, &mut pos).unwrap();
    assert_eq!(back.quantity, Asset::new(10000, sym));
    assert_eq!(back.memo, b"hi".to_vec());

    let d = DelegatebwArgs {
        from: Name::new(1),
        receiver: Name::new(1),
        stake_net_quantity: Asset::new(1, sym),
        stake_cpu_quantity: Asset::new(2, sym),
        transfer: false,
    };
    let bytes = encode(&d);
    let mut pos = 0;
    let back = DelegatebwArgs::read(&bytes[..bytes.len() - 1], &mut pos);
    assert!(back.is_err());
    assert_eq!(pos, 0);
}

#[test]
fn token_rows() {
    let sym = Symbol::new(XPR4);
    let acct = Account { balance: Asset::new(42, sym) };
    assert_eq!(encode(&acct), encode(&Asset::new(42, sym)));
    let st = CurrencyStats { supply: Asset::new(1, sym), max_supply: Asset::new(2, sym), issuer: Name::new(3) };
    let bytes = encode(&st);
    let mut pos = 0;
    assert_eq!(CurrencyStats::read(&bytes, &mut pos), Ok(st));
    assert_eq!(encode(&TimePoint::from_micros(1)), vec![1, 0, 0, 0, 0, 0, 0, 0]);
}

#[test]
fn return_buckets_round_trip() {
    let b = RexReturnBuckets {
        version: 0,
        return_buckets: vec![
            ReturnBucket { time: TimePointSec::new(1), amount: 5 },
            ReturnBucket { time: TimePointSec::new(2), amount: -5 },
        ],
    };
    let bytes = encode(&b);
    assert_eq!(bytes.len(), 1 + 1 + 2 * 12);
    let mut pos = 0;
    let back = RexReturnBuckets::read(&bytes, &mut pos).unwrap();
    assert_eq!(back.return_buckets, b.return_buckets);
}
