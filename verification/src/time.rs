use vstd::prelude::*;

use crate::asset::div_toward_zero;

verus! {

/// A span of time in microseconds.
#[derive(Debug, Clone, Copy, PartialEq, Eq, Structural, Hash, PartialOrd, Ord)]
pub struct Microseconds(pub i64);

impl Default for Microseconds {
    fn default() -> (r: Self)
        ensures
            r.0 == 0,
    {
        Microseconds(0)
    }
}

impl Microseconds {
    /// A span of the given number of microseconds.
    pub fn new(count: i64) -> (r: Self)
        ensures
            r.0 == count,
    {
        Microseconds(count)
    }

    /// The number of microseconds.
    pub fn count(&self) -> (r: i64)
        ensures
            r == self.0,
    {
        self.0
    }

    /// The number of whole seconds, rounded toward zero.
    pub fn to_seconds(&self) -> (r: i64)
        ensures
            r == div_toward_zero(self.0 as int, 1_000_000),
    {
        let c = self.0 as i128;
        let q: i128 = if c >= 0 { c / 1_000_000 } else { -((-c) / 1_000_000) };
        q as i64
    }
}


/// A whole number taken modulo 2^32, as a 32-bit clock counts.
pub open spec fn wrap_u32(v: int) -> int {
    v % 0x1_0000_0000
}

proof fn lemma_wrap_add(a: int, b: int)
    ensures
        wrap_u32(a + wrap_u32(b)) == wrap_u32(a + b),
{
    vstd::arithmetic::div_mod::lemma_add_mod_noop_right(a, b, 0x1_0000_0000);
}

proof fn lemma_wrap_sub(a: int, b: int)
    ensures
        wrap_u32(a - wrap_u32(b)) == wrap_u32(a - b),
{
    vstd::arithmetic::div_mod::lemma_sub_mod_noop_right(a, b, 0x1_0000_0000);
}

/// The low 32 bits of a signed count, read as an unsigned number.
fn truncate_to_u32(v: i64) -> (r: u32)
    ensures
        r == wrap_u32(v as int),
{
    let x = v as i128;
    let m: i128 = if x >= 0 {
        x % 0x1_0000_0000
    } else {
        let t: i128 = (-x) % 0x1_0000_0000;
        if t == 0 {
            0
        } else {
            0x1_0000_0000 - t
        }
    };
    proof {
        if x < 0 {
            vstd::arithmetic::div_mod::lemma_fundamental_div_mod(-x, 0x1_0000_0000);
            vstd::arithmetic::div_mod::lemma_fundamental_div_mod(x as int, 0x1_0000_0000);
        }
    }
    m as u32
}

/// A span of the given number of milliseconds.
pub fn milliseconds(ms: i64) -> (r: Microseconds)
    requires
        i64::MIN <= ms * 1000 <= i64::MAX,
    ensures
        r.0 == ms * 1000,
{
    Microseconds(ms * 1000)
}

/// A span of the given number of seconds.
pub fn seconds(s: i64) -> (r: Microseconds)
    requires
        i64::MIN <= s * 1_000_000 <= i64::MAX,
    ensures
        r.0 == s * 1_000_000,
{
    Microseconds(s * 1_000_000)
}

impl core::ops::Add for Microseconds {
    type Output = Microseconds;

    fn add(self, rhs: Self) -> (r: Self::Output) {
        Microseconds(self.0 + rhs.0)
    }
}

impl vstd::std_specs::ops::AddSpecImpl for Microseconds {
    open spec fn obeys_add_spec() -> bool {
        true
    }

    open spec fn add_req(self, rhs: Self) -> bool {
        i64::MIN <= self.0 + rhs.0 <= i64::MAX
    }

    open spec fn add_spec(self, rhs: Self) -> Self {
        Microseconds((self.0 + rhs.0) as i64)
    }
}

impl core::ops::Sub for Microseconds {
    type Output = Microseconds;

    fn sub(self, rhs: Self) -> (r: Self::Output) {
        Microseconds(self.0 - rhs.0)
    }
}

impl vstd::std_specs::ops::SubSpecImpl for Microseconds {
    open spec fn obeys_sub_spec() -> bool {
        true
    }

    open spec fn sub_req(self, rhs: Self) -> bool {
        i64::MIN <= self.0 - rhs.0 <= i64::MAX
    }

    open spec fn sub_spec(self, rhs: Self) -> Self {
        Microseconds((self.0 - rhs.0) as i64)
    }
}

/// A point in time: microseconds since the UNIX epoch.
#[derive(Debug, Clone, Copy, PartialEq, Eq, Structural, Hash, PartialOrd, Ord)]
pub struct TimePoint {
    pub elapsed: Microseconds,
}

impl Default for TimePoint {
    fn default() -> (r: Self)
        ensures
            r.elapsed.0 == 0,
    {
        TimePoint { elapsed: Microseconds(0) }
    }
}

impl TimePoint {
    /// The time point the given span after the epoch.
    pub fn new(elapsed: Microseconds) -> (r: Self)
        ensures
            r.elapsed == elapsed,
    {
        TimePoint { elapsed }
    }

    /// The span since the epoch.
    pub fn time_since_epoch(&self) -> (r: Microseconds)
        ensures
            r == self.elapsed,
    {
        self.elapsed
    }

    /// Whole seconds since the epoch, rounded toward zero and cut to 32 bits.
    pub fn sec_since_epoch(&self) -> (r: u32)
        ensures
            r == div_toward_zero(self.elapsed.0 as int, 1_000_000) as u32,
    {
        let s = self.elapsed.to_seconds();
        s as u32
    }

    /// The time point the given number of microseconds after the epoch.
    pub fn from_micros(micros: i64) -> (r: Self)
        ensures
            r.elapsed.0 == micros,
    {
        TimePoint { elapsed: Microseconds(micros) }
    }

    /// The time point the given number of milliseconds after the epoch.
    pub fn from_millis(millis: i64) -> (r: Self)
        requires
            i64::MIN <= millis * 1000 <= i64::MAX,
        ensures
            r.elapsed.0 == millis * 1000,
    {
        Self::from_micros(millis * 1_000)
    }

    /// Microseconds since the epoch.
    pub fn as_micros(&self) -> (r: i64)
        ensures
            r == self.elapsed.0,
    {
        self.elapsed.0
    }

    /// Milliseconds since the epoch, rounded toward zero.
    pub fn as_millis(&self) -> (r: i64)
        ensures
            r == div_toward_zero(self.elapsed.0 as int, 1000),
    {
        let c = self.elapsed.0 as i128;
        let q: i128 = if c >= 0 { c / 1000 } else { -((-c) / 1000) };
        q as i64
    }

    /// Seconds since the epoch, rounded toward zero and cut to 32 bits.
    pub fn as_secs(&self) -> (r: i32)
        ensures
            r == div_toward_zero(self.elapsed.0 as int, 1_000_000) as i32,
    {
        let s = self.elapsed.to_seconds();
        s as i32
    }

    /// The time point in whole seconds: the seconds of `as_secs`, read as unsigned.
    pub fn as_time_point_sec(&self) -> (r: TimePointSec)
        ensures
            r.utc_seconds == (div_toward_zero(self.elapsed.0 as int, 1_000_000) as i32) as u32,
    {
        TimePointSec::new(self.as_secs() as u32)
    }

    /// The time point the given span later.
    pub fn add_micros(self, rhs: Microseconds) -> (r: Self)
        requires
            i64::MIN <= self.elapsed.0 + rhs.0 <= i64::MAX,
        ensures
            r.elapsed.0 == self.elapsed.0 + rhs.0,
    {
        TimePoint::new(self.elapsed + rhs)
    }

    /// The time point the given span earlier.
    pub fn sub_micros(self, rhs: Microseconds) -> (r: Self)
        requires
            i64::MIN <= self.elapsed.0 - rhs.0 <= i64::MAX,
        ensures
            r.elapsed.0 == self.elapsed.0 - rhs.0,
    {
        TimePoint::new(self.elapsed - rhs)
    }

    /// The span from `rhs` to this time point.
    pub fn since(self, rhs: TimePoint) -> (r: Microseconds)
        requires
            i64::MIN <= self.elapsed.0 - rhs.elapsed.0 <= i64::MAX,
        ensures
            r.0 == self.elapsed.0 - rhs.elapsed.0,
    {
        self.elapsed - rhs.elapsed
    }
}

/// Seconds since the UNIX epoch (UTC), second precision.
#[derive(Debug, Clone, Copy, PartialEq, Eq, Structural, Hash, PartialOrd, Ord)]
pub struct TimePointSec {
    pub utc_seconds: u32,
}

impl Default for TimePointSec {
    fn default() -> (r: Self)
        ensures
            r.utc_seconds == 0,
    {
        TimePointSec { utc_seconds: 0 }
    }
}

impl TimePointSec {
    /// The time the given number of seconds after the epoch.
    pub fn new(seconds: u32) -> (r: Self)
        ensures
            r.utc_seconds == seconds,
    {
        TimePointSec { utc_seconds: seconds }
    }

    /// The latest representable time.
    pub fn maximum() -> (r: Self)
        ensures
            r.utc_seconds == u32::MAX,
    {
        TimePointSec { utc_seconds: u32::MAX }
    }

    /// The epoch.
    pub fn min() -> (r: Self)
        ensures
            r.utc_seconds == 0,
    {
        TimePointSec { utc_seconds: 0 }
    }

    /// Seconds since the epoch.
    pub fn sec_since_epoch(self) -> (r: u32)
        ensures
            r == self.utc_seconds,
    {
        self.utc_seconds
    }

    /// The whole seconds of a time point, rounded toward zero and cut to 32 bits.
    pub fn from_time_point(t: TimePoint) -> (r: Self)
        ensures
            r.utc_seconds == div_toward_zero(t.elapsed.0 as int, 1_000_000) as u32,
    {
        let secs = t.elapsed.to_seconds();
        TimePointSec { utc_seconds: secs as u32 }
    }

    /// This time as a time point.
    pub fn to_time_point(self) -> (r: TimePoint)
        ensures
            r.elapsed.0 == self.utc_seconds * 1_000_000,
    {
        TimePoint::new(seconds(self.utc_seconds as i64))
    }

    /// The time the given number of seconds later, wrapping around.
    pub fn add_secs(self, rhs: u32) -> (r: Self)
        ensures
            r.utc_seconds == wrap_u32(self.utc_seconds + rhs),
    {
        TimePointSec::new(self.utc_seconds.wrapping_add(rhs))
    }

    /// The time the given number of seconds earlier, wrapping around.
    pub fn sub_secs(self, rhs: u32) -> (r: Self)
        ensures
            r.utc_seconds == wrap_u32(self.utc_seconds - rhs),
    {
        TimePointSec::new(self.utc_seconds.wrapping_sub(rhs))
    }

    /// Moves this time later by the whole seconds of a span, wrapping around.
    pub fn add_assign_micros(&mut self, rhs: Microseconds)
        ensures
            final(self).utc_seconds == wrap_u32(
                old(self).utc_seconds + div_toward_zero(rhs.0 as int, 1_000_000),
            ),
    {
        let secs = truncate_to_u32(rhs.to_seconds());
        let old_secs = self.utc_seconds;
        self.utc_seconds = old_secs.wrapping_add(secs);
        proof {
            lemma_wrap_add(old_secs as int, div_toward_zero(rhs.0 as int, 1_000_000));
        }
    }

    /// Moves this time earlier by the whole seconds of a span, wrapping around.
    pub fn sub_assign_micros(&mut self, rhs: Microseconds)
        ensures
            final(self).utc_seconds == wrap_u32(
                old(self).utc_seconds - div_toward_zero(rhs.0 as int, 1_000_000),
            ),
    {
        let secs = truncate_to_u32(rhs.to_seconds());
        let old_secs = self.utc_seconds;
        self.utc_seconds = old_secs.wrapping_sub(secs);
        proof {
            lemma_wrap_sub(old_secs as int, div_toward_zero(rhs.0 as int, 1_000_000));
        }
    }

    /// The span from `rhs` to this time.
    pub fn since(self, rhs: TimePointSec) -> (r: Microseconds)
        ensures
            r.0 == (self.utc_seconds - rhs.utc_seconds) * 1_000_000,
    {
        self.to_time_point().since(rhs.to_time_point())
    }
}

/// A block time: the number of half-second slots since 2000-01-01T00:00:00Z.
#[derive(Debug, Clone, Copy, PartialEq, Eq, Structural, Hash, PartialOrd, Ord)]
pub struct BlockTimestamp {
    pub slot: u32,
}

/// Milliseconds between blocks.
pub const BLOCK_INTERVAL_MS: i32 = 500;

/// The block epoch, 2000-01-01T00:00:00Z, in milliseconds since the UNIX epoch.
pub const BLOCK_TIMESTAMP_EPOCH: i64 = 946_684_800_000;

impl Default for BlockTimestamp {
    fn default() -> (r: Self)
        ensures
            r.slot == 0,
    {
        BlockTimestamp { slot: 0 }
    }
}

impl BlockTimestamp {
    /// The block time of the given slot.
    pub fn new(slot: u32) -> (r: Self)
        ensures
            r.slot == slot,
    {
        BlockTimestamp { slot }
    }

    /// The block time of slot 0xFFFF.
    pub fn maximum() -> (r: Self)
        ensures
            r.slot == 0xFFFF,
    {
        BlockTimestamp { slot: 0xFFFF }
    }

    /// The block epoch.
    pub fn min() -> (r: Self)
        ensures
            r.slot == 0,
    {
        BlockTimestamp { slot: 0 }
    }

    /// The next slot.
    pub fn next(self) -> (r: Self)
        requires
            self.slot < u32::MAX,
        ensures
            r.slot == self.slot + 1,
    {
        BlockTimestamp { slot: self.slot + 1 }
    }

    /// The start of this slot as a time point.
    pub fn to_time_point(self) -> (r: TimePoint)
        ensures
            r.elapsed.0 == (self.slot * 500 + BLOCK_TIMESTAMP_EPOCH) * 1000,
    {
        let msec = (self.slot as i64) * (BLOCK_INTERVAL_MS as i64) + BLOCK_TIMESTAMP_EPOCH;
        TimePoint::new(milliseconds(msec))
    }

    /// The slot of a time point: whole milliseconds since the block epoch over
    /// the interval, rounded toward zero and cut to 32 bits.
    pub fn from_time_point(t: TimePoint) -> (r: Self)
        ensures
            r.slot == div_toward_zero(
                div_toward_zero(t.elapsed.0 as int, 1000) - BLOCK_TIMESTAMP_EPOCH,
                500,
            ) as u32,
    {
        let msec = t.as_millis();
        let d = (msec as i128) - (BLOCK_TIMESTAMP_EPOCH as i128);
        let q: i128 = if d >= 0 { d / 500 } else { -((-d) / 500) };
        BlockTimestamp { slot: q as u32 }
    }

    /// The slot of a time in seconds.
    pub fn from_time_point_sec(t: TimePointSec) -> (r: Self)
        ensures
            r.slot == div_toward_zero(t.utc_seconds * 1000 - BLOCK_TIMESTAMP_EPOCH, 500) as u32,
    {
        let d = (t.utc_seconds as i128) * 1000 - (BLOCK_TIMESTAMP_EPOCH as i128);
        let q: i128 = if d >= 0 { d / 500 } else { -((-d) / 500) };
        BlockTimestamp { slot: q as u32 }
    }
}


impl From<i64> for TimePoint {
    fn from(micros: i64) -> (r: TimePoint) {
        TimePoint { elapsed: Microseconds(micros) }
    }
}

impl vstd::std_specs::convert::FromSpecImpl<i64> for TimePoint {
    open spec fn obeys_from_spec() -> bool {
        true
    }

    open spec fn from_spec(micros: i64) -> TimePoint {
        TimePoint { elapsed: Microseconds(micros) }
    }
}

impl From<TimePoint> for i64 {
    fn from(t: TimePoint) -> (r: i64) {
        t.elapsed.0
    }
}

impl vstd::std_specs::convert::FromSpecImpl<TimePoint> for i64 {
    open spec fn obeys_from_spec() -> bool {
        true
    }

    open spec fn from_spec(t: TimePoint) -> i64 {
        t.elapsed.0
    }
}

impl From<TimePoint> for TimePointSec {
    fn from(t: TimePoint) -> (r: TimePointSec) {
        TimePointSec::from_time_point(t)
    }
}

impl vstd::std_specs::convert::FromSpecImpl<TimePoint> for TimePointSec {
    open spec fn obeys_from_spec() -> bool {
        true
    }

    open spec fn from_spec(t: TimePoint) -> TimePointSec {
        TimePointSec { utc_seconds: div_toward_zero(t.elapsed.0 as int, 1_000_000) as u32 }
    }
}

impl From<TimePointSec> for TimePoint {
    fn from(t: TimePointSec) -> (r: TimePoint) {
        t.to_time_point()
    }
}

impl vstd::std_specs::convert::FromSpecImpl<TimePointSec> for TimePoint {
    open spec fn obeys_from_spec() -> bool {
        true
    }

    open spec fn from_spec(t: TimePointSec) -> TimePoint {
        TimePoint { elapsed: Microseconds((t.utc_seconds * 1_000_000) as i64) }
    }
}

impl From<BlockTimestamp> for TimePoint {
    fn from(b: BlockTimestamp) -> (r: TimePoint) {
        b.to_time_point()
    }
}

impl vstd::std_specs::convert::FromSpecImpl<BlockTimestamp> for TimePoint {
    open spec fn obeys_from_spec() -> bool {
        true
    }

    open spec fn from_spec(b: BlockTimestamp) -> TimePoint {
        TimePoint { elapsed: Microseconds(((b.slot * 500 + BLOCK_TIMESTAMP_EPOCH) * 1000) as i64) }
    }
}

impl From<TimePoint> for BlockTimestamp {
    fn from(t: TimePoint) -> (r: BlockTimestamp) {
        BlockTimestamp::from_time_point(t)
    }
}

impl vstd::std_specs::convert::FromSpecImpl<TimePoint> for BlockTimestamp {
    open spec fn obeys_from_spec() -> bool {
        true
    }

    open spec fn from_spec(t: TimePoint) -> BlockTimestamp {
        BlockTimestamp {
            slot: div_toward_zero(
                div_toward_zero(t.elapsed.0 as int, 1000) - BLOCK_TIMESTAMP_EPOCH,
                500,
            ) as u32,
        }
    }
}

impl From<TimePointSec> for BlockTimestamp {
    fn from(t: TimePointSec) -> (r: BlockTimestamp) {
        BlockTimestamp::from_time_point_sec(t)
    }
}

impl vstd::std_specs::convert::FromSpecImpl<TimePointSec> for BlockTimestamp {
    open spec fn obeys_from_spec() -> bool {
        true
    }

    open spec fn from_spec(t: TimePointSec) -> BlockTimestamp {
        BlockTimestamp { slot: div_toward_zero(t.utc_seconds * 1000 - BLOCK_TIMESTAMP_EPOCH, 500) as u32 }
    }
}

/// The current time, from the host's clock reading in microseconds since the
/// epoch (read as a signed count).
pub fn current_time_point(now_us: u64) -> (r: TimePoint)
    ensures
        r.elapsed.0 == now_us as i64,
{
    TimePoint::new(Microseconds::new(now_us as i64))
}

/// The slot of the current block time, from the host's clock reading.
pub fn current_block_time(now_us: u64) -> (r: BlockTimestamp)
    ensures
        r.slot == div_toward_zero(
            div_toward_zero((now_us as i64) as int, 1000) - BLOCK_TIMESTAMP_EPOCH,
            500,
        ) as u32,
{
    BlockTimestamp::from_time_point(current_time_point(now_us))
}


/// Whole seconds survive the trip to microseconds and back: a time in
/// seconds, turned into a time point and back, is unchanged.
pub proof fn lemma_seconds_roundtrip(secs: u32)
    ensures
        div_toward_zero(secs * 1_000_000, 1_000_000) as u32 == secs,
{
    if secs > 0 {
        assert((secs * 1_000_000) / 1_000_000 == secs) by (nonlinear_arith);
    }
}

/// A block slot survives the trip to a time point and back.
pub proof fn lemma_block_slot_roundtrip(slot: u32)
    ensures
        div_toward_zero(
            div_toward_zero((slot * 500 + BLOCK_TIMESTAMP_EPOCH) * 1000, 1000) - BLOCK_TIMESTAMP_EPOCH,
            500,
        ) as u32 == slot,
{
    let ms = slot * 500 + BLOCK_TIMESTAMP_EPOCH;
    assert((ms * 1000) / 1000 == ms) by (nonlinear_arith)
        requires
            ms > 0,
    ;
    if slot > 0 {
        assert((slot * 500) / 500 == slot) by (nonlinear_arith);
    }
}

} // verus!
