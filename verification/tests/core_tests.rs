use pulse_cdt::asset::{Asset, AssetError, MAX_ASSET_AMOUNT};
use pulse_cdt::authority::{convert_to_block_signing_authority, BlockSigningAuthority, KeyWeight};
use pulse_cdt::flags::{has_field, VoterInfoFlags1Fields};
use pulse_cdt::keys::{FixedBytes, PublicKey, PublicKeyError};
use pulse_cdt::name::{name_from_bytes, name_to_bytes, Name, ParseNameError, PulseName};
use pulse_cdt::symbol::{
    symbol_code_from_bytes, symbol_code_to_bytes, symbol_from_code, symbol_to_code,
    symbol_to_precision, ParseSymbolCodeError, Symbol, SymbolCode, SymbolWithCode,
};
use pulse_cdt::time::{
    current_block_time, current_time_point, milliseconds, seconds, BlockTimestamp, Microseconds,
    TimePoint, TimePointSec,
};

const XPR: u64 = 5394520;
const XPR4: u64 = 1380997124;

#[test]
fn name_values_of_known_names() {
    assert_eq!(name_from_bytes(b"abihash"), Ok(3592979018984456192));
    assert_eq!(name_from_bytes(b"rammarket"), Ok(13377137154988703744));
    assert_eq!(name_from_bytes(b"pulse.token"), Ok(12584048032615671296));
    assert_eq!(name_from_bytes(b""), Ok(0));
}

#[test]
fn name_parse_errors() {
    assert_eq!(name_from_bytes(b"Alice"), Err(ParseNameError::BadChar(b'A')));
    assert_eq!(name_from_bytes(b"abc6"), Err(ParseNameError::BadChar(b'6')));
    assert_eq!(name_from_bytes(b"abcdefghijklm"), Err(ParseNameError::BadChar(b'm')));
    assert_eq!(name_from_bytes(b"abcdefghijkla1"), Err(ParseNameError::TooLong));
    assert_eq!(name_from_bytes(b"abcdefghijkla"), Ok(name_from_bytes(b"abcdefghijkla").unwrap()));
}

#[test]
fn name_text_round_trip() {
    let n = Name::from_str("pulse.token").unwrap();
    assert_eq!(n.to_string(), "pulse.token");
    assert_eq!(Name::new(3592979018984456192).to_string(), "abihash");
    assert_eq!(Name::new(0).to_string(), "");
    assert_eq!(&name_to_bytes(3589368903014285312), b"abc..........");
    assert_eq!(&Name::new(3589368903014285312).as_bytes(), b"abc..........");
    assert_eq!(PulseName::parse("alice").unwrap().0, 3773036822876127232);
}

#[test]
fn name_accessors() {
    let n = Name::new(42);
    assert_eq!(n.raw(), 42);
    assert_eq!(n.as_u64(), 42);
    assert!(!n.is_empty());
    assert!(Name::new(0).is_empty());
    assert!(n.eq_raw(42));
    assert_eq!(Name::from(7u64), Name::new(7));
    assert_eq!(Name::default(), Name::new(0));
}

#[test]
fn name_suffix() {
    let n = Name::from_str("alice.xpr").unwrap();
    assert_eq!(n.suffix(), Name::from_str("xpr").unwrap());
    let plain = Name::from_str("alice").unwrap();
    assert_eq!(plain.suffix(), plain);
    let two = Name::from_str("a.b.c").unwrap();
    assert_eq!(two.suffix(), Name::from_str("c").unwrap());
}

#[test]
fn symbol_code_parsing() {
    assert_eq!(symbol_code_from_bytes(b"XPR"), Ok(XPR));
    assert_eq!(symbol_code_to_bytes(XPR), *b"XPR    ");
    assert_eq!(symbol_code_from_bytes(b"ABCDEFGH"), Err(ParseSymbolCodeError::TooLong));
    assert_eq!(symbol_code_from_bytes(b"xPR"), Err(ParseSymbolCodeError::BadChar(b'x')));
    assert!(SymbolCode::new(XPR).is_valid());
    assert!(!SymbolCode::new(1).is_valid());
    assert_eq!(SymbolCode::from_str("XPR").unwrap().raw(), XPR);
    assert_eq!(SymbolCode::new(XPR).to_bytes(), *b"XPR    ");
}

#[test]
fn symbol_parts() {
    assert_eq!(symbol_from_code(4, XPR), XPR4);
    assert_eq!(symbol_to_code(XPR4), XPR);
    assert_eq!(symbol_to_precision(XPR4), 4);
    let s = Symbol::new_with_code(4, SymbolCode::new(XPR));
    assert_eq!(s.raw(), XPR4);
    assert_eq!(s.precision(), 4);
    assert_eq!(s.code(), SymbolCode::new(XPR));
    assert!(s.is_valid());
    assert_eq!(SymbolWithCode::parse(4, "XPR").unwrap().symbol, XPR4);
    assert_eq!(Symbol::new(XPR4), s);
}

#[test]
fn asset_arithmetic() {
    let sym = Symbol::new(XPR4);
    let a = Asset::new(10, sym);
    let b = Asset::new(3, sym);
    assert_eq!(a.try_add(b), Ok(Asset::new(13, sym)));
    assert_eq!(a.try_sub(b), Ok(Asset::new(7, sym)));
    assert_eq!(a + b, Asset::new(13, sym));
    assert_eq!(a - b, Asset::new(7, sym));
    assert_eq!(a * b, Asset::new(30, sym));
    assert_eq!(a / b, Asset::new(3, sym));
    assert_eq!(Asset::new(-7, sym) / Asset::new(2, sym), Asset::new(-3, sym));
    assert_eq!(-a, Asset::new(-10, sym));
    let mut c = a;
    c.add_assign(b);
    c.sub_assign(Asset::new(1, sym));
    assert_eq!(c.amount, 12);
    assert_eq!(Asset::zero(sym).amount, 0);
    assert!(a.is_valid());
    assert!(!Asset::new(1, Symbol::new(30724)).is_valid());
    assert_eq!(MAX_ASSET_AMOUNT, (1i64 << 62) - 1);
}

#[test]
fn asset_amount_above_maximum_is_invalid() {
    let sym = Symbol::new(XPR4);
    assert!(Asset::new(MAX_ASSET_AMOUNT, sym).is_valid());
    assert!(!Asset::new(MAX_ASSET_AMOUNT + 1, sym).is_valid());
    assert!(!Asset::new(MAX_ASSET_AMOUNT + 1, sym).is_amount_within_range());
    assert!(Asset::new(-5, sym).is_amount_within_range());
}

#[test]
fn asset_errors() {
    let a = Asset::new(1, Symbol::new(XPR4));
    let other = Asset::new(1, Symbol::new(symbol_from_code(0, XPR)));
    assert_eq!(a.try_add(other), Err(AssetError::AddSymbolMismatch));
    assert_eq!(a.try_sub(other), Err(AssetError::SubSymbolMismatch));
    let big = Asset::new(i64::MAX, Symbol::new(XPR4));
    assert_eq!(big.try_add(a), Err(AssetError::AddOverflow));
    let small = Asset::new(i64::MIN, Symbol::new(XPR4));
    assert_eq!(small.try_sub(a), Err(AssetError::SubOverflow));
    assert_eq!(AssetError::AddOverflow.message(), "addition overflow");
}

#[test]
fn add_then_sub_gives_back() {
    let sym = Symbol::new(XPR4);
    let a = Asset::new(123456, sym);
    let b = Asset::new(-99, sym);
    let c = a.try_add(b).unwrap();
    assert_eq!(c.try_sub(b), Ok(a));
}

#[test]
fn time_spans() {
    assert_eq!(seconds(3).count(), 3_000_000);
    assert_eq!(milliseconds(5).count(), 5_000);
    assert_eq!(Microseconds::new(-1_500_000).to_seconds(), -1);
    let t = TimePoint::from_micros(1_500_000);
    assert_eq!(t.sec_since_epoch(), 1);
    assert_eq!(t.as_millis(), 1_500);
    assert_eq!(t.as_secs(), 1);
    assert_eq!(TimePoint::from_millis(2).as_micros(), 2_000);
    assert_eq!(TimePointSec::from_time_point(t).utc_seconds, 1);
    assert_eq!(t.as_time_point_sec().utc_seconds, 1);
    assert_eq!(t.since(TimePoint::from_micros(500_000)).count(), 1_000_000);
}

#[test]
fn seconds_round_trip() {
    let s = TimePointSec::new(1_700_000_000);
    assert_eq!(TimePointSec::from_time_point(s.to_time_point()), s);
}

#[test]
fn time_point_sec_wraps() {
    assert_eq!(TimePointSec::new(u32::MAX).add_secs(2).utc_seconds, 1);
    assert_eq!(TimePointSec::new(0).sub_secs(1).utc_seconds, u32::MAX);
    let mut s = TimePointSec::new(10);
    s.add_assign_micros(Microseconds::new(2_500_000));
    assert_eq!(s.utc_seconds, 12);
    s.sub_assign_micros(Microseconds::new(-3_000_000));
    assert_eq!(s.utc_seconds, 15);
    s.sub_assign_micros(Microseconds::new(20_000_000));
    assert_eq!(s.utc_seconds, u32::MAX - 4);
    assert_eq!(TimePointSec::maximum().utc_seconds, u32::MAX);
    assert_eq!(TimePointSec::min().utc_seconds, 0);
    assert_eq!(TimePointSec::new(3).since(TimePointSec::new(1)).count(), 2_000_000);
}

#[test]
fn block_timestamps() {
    let b = BlockTimestamp::new(100);
    let t = b.to_time_point();
    assert_eq!(t.as_micros(), (100 * 500 + 946_684_800_000) * 1000);
    assert_eq!(BlockTimestamp::from_time_point(t), b);
    assert_eq!(b.next().slot, 101);
    assert_eq!(BlockTimestamp::maximum().slot, 0xFFFF);
    assert_eq!(BlockTimestamp::min().slot, 0);
    let sec = TimePointSec::new(946_684_801);
    assert_eq!(BlockTimestamp::from_time_point_sec(sec).slot, 2);
}

#[test]
fn host_clock_readings() {
    let now: u64 = (946_684_800_000 + 3 * 500) * 1000 + 7;
    assert_eq!(current_time_point(now).as_micros(), now as i64);
    assert_eq!(current_block_time(now).slot, 3);
}

#[test]
fn voter_flags() {
    assert!(has_field(5, VoterInfoFlags1Fields::RamManaged));
    assert!(!has_field(5, VoterInfoFlags1Fields::NetManaged));
    assert!(has_field(5, VoterInfoFlags1Fields::CpuManaged));
    assert!(!has_field(0, VoterInfoFlags1Fields::RamManaged));
}

fn key(b: u8) -> PublicKey {
    let mut bytes = [0u8; 34];
    bytes[1] = b;
    PublicKey::new(&bytes).unwrap()
}

#[test]
fn public_keys() {
    assert_eq!(PublicKey::new(&[1u8; 33]).err(), Some(PublicKeyError::WrongLength));
    let k = PublicKey::new(&[7u8; 34]).unwrap();
    assert_eq!(k.0 .0, [7u8; 34]);
    assert!(k.same_key(&PublicKey::new(&[7u8; 34]).unwrap()));
    assert!(!k.same_key(&PublicKey::default()));
    assert_eq!(FixedBytes::new([1u8, 2]).0, [1u8, 2]);
}

#[test]
fn signing_authority_validity() {
    let a = convert_to_block_signing_authority(&key(1));
    assert!(a.is_valid());
    assert_eq!(a.threshold, 1);
    let dup = BlockSigningAuthority::new(
        1,
        vec![KeyWeight { key: key(1), weight: 1 }, KeyWeight { key: key(1), weight: 1 }],
    );
    assert!(!dup.is_valid());
    let zero = BlockSigningAuthority::new(0, vec![KeyWeight { key: key(1), weight: 1 }]);
    assert!(!zero.is_valid());
    let weak = BlockSigningAuthority::new(3, vec![KeyWeight { key: key(1), weight: 1 }, KeyWeight { key: key(2), weight: 1 }]);
    assert!(!weak.is_valid());
    let strong = BlockSigningAuthority::new(
        70000,
        vec![KeyWeight { key: key(1), weight: 65535 }, KeyWeight { key: key(2), weight: 65535 }],
    );
    assert!(strong.is_valid());
}

#[test]
fn conversions_between_names_times_and_integers() {
    let n = Name::new(42);
    assert_eq!(u64::from(n), 42);
    assert!(n == 42u64);
    assert!(n != 43u64);
    assert_eq!(u64::from(SymbolCode::new(XPR)), XPR);
    let t = TimePoint::from(3_500_000i64);
    assert_eq!(t, TimePoint::from_micros(3_500_000));
    assert_eq!(i64::from(t), 3_500_000);
    assert_eq!(TimePointSec::from(t), TimePointSec::new(3));
    assert_eq!(TimePoint::from(TimePointSec::new(3)), TimePoint::from_micros(3_000_000));
    let b = BlockTimestamp::new(10);
    assert_eq!(TimePoint::from(b), TimePoint::from_micros((10 * 500 + 946_684_800_000) * 1000));
    assert_eq!(BlockTimestamp::from(TimePoint::from(b)), b);
    assert_eq!(BlockTimestamp::from(TimePointSec::new(946_684_805)), BlockTimestamp::new(10));
}
