//! Points in time: UTC timestamps and the Windows FILETIME clock.

use chrono::TimeZone;
use vstd::prelude::*;

verus! {

/// A point in time: seconds since 1970-01-01T00:00:00Z and the nanoseconds
/// behind them. A leap second has more than 999 999 999 of these.
pub struct Moment {
    pub secs: int,
    pub nanos: int,
}

impl Moment {
    /// Whether a calendar date stands for the moment: the years -262143 to
    /// 262142, and a leap second only at the end of a minute.
    pub open spec fn wf(self) -> bool {
        &&& -8_334_601_228_800 <= self.secs <= 8_210_266_876_799
        &&& 0 <= self.nanos < 2_000_000_000
        &&& self.nanos >= 1_000_000_000 ==> self.secs % 60 == 59
    }

    /// Whether the moment is not after another one.
    pub open spec fn le(self, other: Moment) -> bool {
        self.secs < other.secs || (self.secs == other.secs && self.nanos <= other.nanos)
    }
}

/// A UTC timestamp.
#[derive(Debug, Clone, Copy)]
pub struct Timestamp {
    secs: i64,
    nanos: u32,
}

impl View for Timestamp {
    type V = Moment;

    closed spec fn view(&self) -> Moment {
        Moment { secs: self.secs as int, nanos: self.nanos as int }
    }
}

/// The moment of a timestamp that may be missing.
pub open spec fn moment_of(t: Option<Timestamp>) -> Option<Moment> {
    match t {
        Some(t) => Some(t@),
        None => None,
    }
}

/// The text that chrono's `DateTime::<Utc>::to_rfc3339` gives for a moment.
pub uninterp spec fn rfc3339_text(secs: int, nanos: int) -> Seq<char>;

/// The seconds and nanoseconds, in UTC, that chrono's
/// `DateTime::parse_from_rfc3339` reads out of a text.
pub uninterp spec fn rfc3339_parts(text: Seq<char>) -> Option<(int, int)>;

/// Whether a moment lies in the years 0 to 9999 and is no leap second.
pub open spec fn four_digit_year(secs: int, nanos: int) -> bool {
    -62_167_219_200 <= secs <= 253_402_300_799 && nanos < 1_000_000_000
}

/// The text of a moment that may be missing.
pub open spec fn moment_text(m: Option<Moment>) -> Option<Seq<char>> {
    match m {
        Some(m) => Some(rfc3339_text(m.secs, m.nanos)),
        None => None,
    }
}

/// chrono's `TimeZone::timestamp_opt` for `Utc`: the given seconds and
/// nanoseconds, `None` where no calendar date stands for them.
#[verifier::external_body]
fn utc_timestamp(secs: i64, nanos: u32) -> (r: Option<Timestamp>)
    ensures
        r is Some == (Moment { secs: secs as int, nanos: nanos as int }).wf(),
        r matches Some(t) ==> t@ == (Moment { secs: secs as int, nanos: nanos as int }),
{
    let found = chrono::Utc.timestamp_opt(secs, nanos).single();
    found.map(|d| Timestamp { secs: d.timestamp(), nanos: d.timestamp_subsec_nanos() })
}

/// chrono's `Utc::now`: the time on the system clock. Nothing more is stated
/// of it than that it is a timestamp. It panics where the clock stands before 1970.
#[verifier::external_body]
fn utc_now() -> (r: Timestamp)
{
    let d = chrono::Utc::now();
    Timestamp { secs: d.timestamp(), nanos: d.timestamp_subsec_nanos() }
}

/// chrono's `DateTime::<Utc>::to_rfc3339`: a function of the moment alone, which
/// is read back to the same moment where the year has four digits.
#[verifier::external_body]
fn utc_to_rfc3339(t: Timestamp) -> (r: String)
    requires
        t@.wf(),
    ensures
        r@ == rfc3339_text(t@.secs, t@.nanos),
        four_digit_year(t@.secs, t@.nanos) ==> rfc3339_parts(r@) == Some((t@.secs, t@.nanos)),
{
    let d = chrono::DateTime::from_timestamp(t.secs, t.nanos);
    d.unwrap_or_default().to_rfc3339()
}

/// chrono's `DateTime::parse_from_rfc3339`, taken to UTC: a function of the text alone.
#[verifier::external_body]
fn utc_from_rfc3339(s: &str) -> (r: Option<Timestamp>)
    ensures
        r is Some == rfc3339_parts(s@) is Some,
        r matches Some(t) ==> rfc3339_parts(s@) == Some((t@.secs, t@.nanos)),
{
    let d = chrono::DateTime::parse_from_rfc3339(s).ok()?.with_timezone(&chrono::Utc);
    Some(Timestamp { secs: d.timestamp(), nanos: d.timestamp_subsec_nanos() })
}

impl Timestamp {
    #[verifier::type_invariant]
    closed spec fn inv(self) -> bool {
        self@.wf()
    }

    /// The timestamp of a number of seconds and nanoseconds, `None` where no
    /// calendar date stands for them.
    pub fn new(secs: i64, nanos: u32) -> (r: Option<Timestamp>)
        ensures
            r is Some == (Moment { secs: secs as int, nanos: nanos as int }).wf(),
            r matches Some(t) ==> t@ == (Moment { secs: secs as int, nanos: nanos as int }),
    {
        utc_timestamp(secs, nanos)
    }

    /// The time on the system clock.
    pub fn now() -> (r: Timestamp)
        ensures
            r@.wf(),
    {
        let r = utc_now();
        proof {
            use_type_invariant(&r);
        }
        r
    }

    /// The timestamp that a text in the format of RFC 3339 stands for.
    pub fn parse_from_rfc3339(s: &str) -> (r: Option<Timestamp>)
        ensures
            r is Some == rfc3339_parts(s@) is Some,
            r matches Some(t) ==> rfc3339_parts(s@) == Some((t@.secs, t@.nanos)) && t@.wf(),
    {
        let r = utc_from_rfc3339(s);
        if let Some(t) = r {
            proof {
                use_type_invariant(&t);
            }
        }
        r
    }

    /// The seconds since 1970-01-01T00:00:00Z.
    pub fn timestamp(&self) -> (r: i64)
        ensures
            r == self@.secs,
            self@.wf(),
    {
        proof {
            use_type_invariant(self);
        }
        self.secs
    }

    /// The nanoseconds behind the second.
    pub fn timestamp_subsec_nanos(&self) -> (r: u32)
        ensures
            r == self@.nanos,
            self@.wf(),
    {
        proof {
            use_type_invariant(self);
        }
        self.nanos
    }

    /// The timestamp in the format of RFC 3339.
    pub fn to_rfc3339(&self) -> (r: String)
        ensures
            r@ == rfc3339_text(self@.secs, self@.nanos),
                four_digit_year(self@.secs, self@.nanos) ==> rfc3339_parts(r@) == Some(
                (self@.secs, self@.nanos),
            ),
    {
        proof {
            use_type_invariant(self);
        }
        utc_to_rfc3339(*self)
    }

    /// The timestamp in the format of RFC 3339, where there is one.
    pub fn text_of(t: &Option<Timestamp>) -> (r: Option<String>)
        ensures
            super::text_of(r) == moment_text(moment_of(*t)),
    {
        match t {
            Some(t) => Some(t.to_rfc3339()),
            None => None,
        }
    }

    /// Whether the timestamp is not after another one.
    pub fn not_after(&self, other: &Timestamp) -> (r: bool)
        ensures
            r == self@.le(other@),
    {
        self.secs < other.secs || (self.secs == other.secs && self.nanos <= other.nanos)
    }
}

// ---------------------------------------------------------------------
// The present
// ---------------------------------------------------------------------

/// The present, each time it is asked for: what the system clock says then, or
/// a time that was given. The readings are kept.
pub struct Clock {
    given: Option<Timestamp>,
    readings: Vec<Timestamp>,
}

impl View for Clock {
    type V = Seq<Moment>;

    /// The readings, one for each time that the clock was asked.
    closed spec fn view(&self) -> Seq<Moment> {
        moments(self.readings@)
    }
}

/// The moments of a list of timestamps.
pub open spec fn moments(times: Seq<Timestamp>) -> Seq<Moment> {
    Seq::new(times.len(), |i: int| times[i]@)
}

/// The same moment `n` times.
pub open spec fn repeated(now: Moment, n: nat) -> Seq<Moment> {
    Seq::new(n, |i: int| now)
}

/// Whether every reading is a calendar date.
pub open spec fn are_dates(readings: Seq<Moment>) -> bool {
    forall|i: int| 0 <= i < readings.len() ==> (#[trigger] readings[i]).wf()
}

impl Clock {
    /// The time that was given in place of the system clock's.
    pub closed spec fn given(&self) -> Option<Moment> {
        moment_of(self.given)
    }

    /// The readings since `before`.
    pub open spec fn since(&self, before: &Clock) -> Seq<Moment> {
        self@.skip(before@.len() as int)
    }

    /// Whether the clock was asked `n` times since `before`, and said what it
    /// was given where it was given a time.
    pub open spec fn asked(&self, before: &Clock, n: nat) -> bool {
        &&& self.given() == before.given()
        &&& self@.len() == before@.len() + n
        &&& self@.take(before@.len() as int) == before@
        &&& are_dates(self.since(before))
        &&& self.given() matches Some(now) ==> self.since(before) == repeated(now, n)
    }

    /// The system clock.
    pub fn system() -> (r: Clock)
        ensures
            r.given() is None,
            r@ == Seq::<Moment>::empty(),
    {
        let r = Clock { given: None, readings: Vec::new() };
        assert(r@ =~= Seq::<Moment>::empty());
        r
    }

    /// A clock that says a time that is given.
    pub fn fixed(now: Timestamp) -> (r: Clock)
        ensures
            r.given() == Some(now@),
            r@ == Seq::<Moment>::empty(),
    {
        let r = Clock { given: Some(now), readings: Vec::new() };
        assert(r@ =~= Seq::<Moment>::empty());
        r
    }

    /// The present.
    pub fn now(&mut self) -> (r: Timestamp)
        ensures
            final(self)@ == old(self)@.push(r@),
            final(self).asked(old(self), 1),
    {
        let now = match self.given {
            Some(now) => now,
            None => Timestamp::now(),
        };
        proof {
            use_type_invariant(&now);
        }
        self.readings.push(now);
        assert(self@ =~= old(self)@.push(now@));
        assert(self.since(old(self)) =~= seq![now@]);
        assert(self@.take(old(self)@.len() as int) =~= old(self)@);
        assert(self.given() matches Some(t) ==> self.since(old(self)) =~= repeated(t, 1));
        now
    }

    /// The readings so far.
    pub fn readings(&self) -> (r: &Vec<Timestamp>)
        ensures
            moments(r@) == self@,
    {
        &self.readings
    }
}

/// A clock that is not asked says nothing.
pub proof fn lemma_not_asked(clock: Clock)
    ensures
        clock.asked(&clock, 0),
        clock.since(&clock) == Seq::<Moment>::empty(),
{
    assert(clock.since(&clock) =~= Seq::<Moment>::empty());
    assert(clock@.take(clock@.len() as int) =~= clock@);
    assert(clock.given() matches Some(now) ==> clock.since(&clock) =~= repeated(now, 0));
}

/// A clock that is asked `m` and then `n` times is asked as often as both.
pub proof fn lemma_asked_again(a: Clock, b: Clock, c: Clock, m: nat, n: nat)
    requires
        b.asked(&a, m),
        c.asked(&b, n),
    ensures
        c.asked(&a, m + n),
        c.since(&a) == b.since(&a) + c.since(&b),
        c.since(&a).skip(m as int) == c.since(&b),
        c.since(&a).take(m as int) == b.since(&a),
{
    assert(b@ == c@.take(b@.len() as int));
    assert(c@.take(a@.len() as int) =~= b@.take(a@.len() as int));
    assert(c.since(&a) =~= b.since(&a) + c.since(&b));
    assert(c.since(&a).skip(m as int) =~= c.since(&b));
    assert(c.since(&a).take(m as int) =~= b.since(&a));
    assert forall|i: int| 0 <= i < c.since(&a).len() implies (#[trigger] c.since(&a)[i]).wf() by {
        if i < m {
            assert(c.since(&a)[i] == b.since(&a)[i]);
        } else {
            assert(c.since(&a)[i] == c.since(&b)[i - m]);
        }
    }
    if let Some(now) = c.given() {
        assert(c.since(&a) =~= repeated(now, m + n));
    }
}

/// The nanoseconds from one moment to another.
pub open spec fn nanos_between(a: Moment, b: Moment) -> int {
    (b.secs - a.secs) * 1_000_000_000 + b.nanos - a.nanos
}

/// Whether two timestamps lie more than `secs` whole seconds apart.
pub fn further_apart(a: &Timestamp, b: &Timestamp, secs: u32) -> (r: bool)
    ensures
        r == (nanos_between(a@, b@) >= (secs + 1) * 1_000_000_000 || nanos_between(b@, a@) >= (secs
            + 1) * 1_000_000_000),
{
    let least: i128 = (secs as i128 + 1) * 1_000_000_000;
    let whole: i128 = (b.timestamp() - a.timestamp()) as i128;
    let nanos: i128 = whole * 1_000_000_000 + b.timestamp_subsec_nanos() as i128
        - a.timestamp_subsec_nanos() as i128;
    nanos >= least || -nanos >= least
}

// ---------------------------------------------------------------------
// FILETIME
// ---------------------------------------------------------------------

/// The 100-nanosecond ticks between the FILETIME epoch (1601-01-01) and the
/// Unix epoch (1970-01-01).
pub const FILETIME_EPOCH_OFFSET: i64 = 116_444_736_000_000_000;

/// The moment of a FILETIME, the number of ticks since 1601. Zero means that
/// it was never set, and a value from 2^63 on is a negative one: neither is a
/// moment. A time before 1970 is one like any other.
pub open spec fn filetime_moment(ft: u64) -> Option<Moment> {
    if ft == 0 || ft > i64::MAX {
        None
    } else {
        let ticks = ft - FILETIME_EPOCH_OFFSET;
        Some(Moment { secs: ticks / 10_000_000, nanos: (ticks % 10_000_000) * 100 })
    }
}

/// The timestamp of a FILETIME.
pub fn filetime_to_datetime(ft: u64) -> (r: Option<Timestamp>)
    ensures
        moment_of(r) == filetime_moment(ft),
{
    if ft == 0 || ft > i64::MAX as u64 {
        return None;
    }
    let secs: i64 = (ft / 10_000_000) as i64 - 11_644_473_600;
    let nanos: u32 = ((ft % 10_000_000) * 100) as u32;
    let ghost ticks = ft - FILETIME_EPOCH_OFFSET;
    assert(ticks / 10_000_000 == secs && ticks % 10_000_000 * 100 == nanos);
    Timestamp::new(secs, nanos)
}

/// A FILETIME and its moment name the same tick.
pub proof fn law_filetime_is_exact(ft: u64)
    ensures
        filetime_moment(ft) is Some == (0 < ft <= i64::MAX),
        filetime_moment(ft) matches Some(m) ==> {
            &&& m.wf()
            &&& m.nanos < 1_000_000_000
            &&& m.secs * 10_000_000 + m.nanos / 100 + FILETIME_EPOCH_OFFSET == ft
        },
{
}

/// FILETIMEs are ordered as their moments are.
pub proof fn law_filetime_keeps_order(a: u64, b: u64)
    requires
        filetime_moment(a) is Some,
        filetime_moment(b) is Some,
    ensures
        a <= b <==> filetime_moment(a)->0.le(filetime_moment(b)->0),
{
}

/// A FILETIME counts ticks of 100 nanoseconds, of which 116444736000000000 lie
/// before 1970.
pub proof fn law_filetime_counts_ticks(ft: u64, secs: int, ticks: int)
    requires
        0 < ft < 0x8000_0000_0000_0000,
        ft == 116_444_736_000_000_000 + 10_000_000 * secs + ticks,
        0 <= ticks < 10_000_000,
    ensures
        filetime_moment(ft) == Some(Moment { secs, nanos: 100 * ticks }),
{
}

/// A FILETIME of zero and one whose highest bit is set stand for no moment.
pub proof fn law_unset_filetime_is_no_moment(ft: u64)
    ensures
        filetime_moment(ft) is None <==> ft == 0 || ft >= 0x8000_0000_0000_0000,
{
}

/// Moments that are no leap seconds are ordered as their nanoseconds since 1970.
pub proof fn law_moments_are_ordered_by_nanoseconds(a: Moment, b: Moment)
    requires
        0 <= a.nanos < 1_000_000_000,
        0 <= b.nanos < 1_000_000_000,
    ensures
        a.le(b) <==> 1_000_000_000 * a.secs + a.nanos <= 1_000_000_000 * b.secs + b.nanos,
{
}

/// Of two moments each is not after the other just where they are one.
pub proof fn law_order_of_moments_is_total(a: Moment, b: Moment, c: Moment)
    ensures
        a.le(b) || b.le(a),
        a.le(b) && b.le(a) ==> a == b,
        a.le(b) && b.le(c) ==> a.le(c),
        a.secs < b.secs ==> !b.le(a),
{
}

/// A time that is given is said as often as the clock is asked.
pub proof fn law_given_time_is_said_each_time(before: Clock, after: Clock, now: Moment, n: nat, i: int)
    requires
        after.asked(&before, n),
        before.given() == Some(now),
        0 <= i < n,
    ensures
        after@.len() == before@.len() + n,
        after@[before@.len() + i] == now,
{
    assert(after.since(&before)[i] == repeated(now, n)[i]);
}

} // verus!
