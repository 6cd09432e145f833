//! The violation detector: per-plate, per-road histories of sightings, the
//! average speed between neighbouring sightings, and the once-per-day rule
//! on tickets.

use vstd::prelude::*;
use crate::camera::{Camera, PlateRecord};
use crate::server::{TicketModel, TicketRecord};

verus! {

/// Seconds in a day.
pub const SECONDS_PER_DAY: u32 = 86400;

/// The day of a timestamp.
pub open spec fn day_of(t: int) -> int {
    t / 86400
}

/// The days covered by the half-open interval `[timestamp1, timestamp2)` of
/// a ticket.
pub open spec fn ticket_days(t: TicketModel) -> Set<int> {
    Set::new(
        |d: int|
            exists|s: int|
                t.timestamp1 <= s < t.timestamp2 && #[trigger] day_of(s) == d,
    )
}

/// The days from `first` to `last`, both included.
pub open spec fn day_range(first: int, last: int) -> Set<int> {
    Set::new(|d: int| first <= d <= last)
}

/// The days of a ticket are the days from the day of its first timestamp to
/// the day of the second last second of its interval.
pub proof fn lemma_ticket_days(t: TicketModel)
    ensures
        t.timestamp1 < t.timestamp2 ==> ticket_days(t) == day_range(
            day_of(t.timestamp1 as int),
            day_of(t.timestamp2 - 1),
        ),
        t.timestamp1 >= t.timestamp2 ==> ticket_days(t) == Set::<int>::empty(),
{
    let a = t.timestamp1 as int;
    let b = t.timestamp2 as int;
    if a < b {
        assert forall|d: int| ticket_days(t).contains(d) implies day_range(
            day_of(a),
            day_of(b - 1),
        ).contains(d) by {
            let s = choose|s: int| a <= s < b && #[trigger] day_of(s) == d;
            vstd::arithmetic::div_mod::lemma_div_is_ordered(a, s, 86400);
            vstd::arithmetic::div_mod::lemma_div_is_ordered(s, b - 1, 86400);
        }
        assert forall|d: int| day_range(day_of(a), day_of(b - 1)).contains(d) implies ticket_days(
            t,
        ).contains(d) by {
            let s = if d * 86400 >= a {
                d * 86400
            } else {
                a
            };
            assert(a <= s);
            if d * 86400 >= a {
                assert(day_of(s) == d) by (nonlinear_arith)
                    requires
                        s == d * 86400,
                ;
                assert(s < b) by (nonlinear_arith)
                    requires
                        s == d * 86400,
                        d <= (b - 1) / 86400,
                        b >= 1,
                ;
            } else {
                assert(day_of(a) <= d);
                assert(d * 86400 + 86400 > a) by (nonlinear_arith)
                    requires
                        a / 86400 <= d,
                        a >= 0,
                ;
                assert(day_of(s) == d) by (nonlinear_arith)
                    requires
                        s == a,
                        a / 86400 <= d,
                        d * 86400 < a,
                        d * 86400 + 86400 > a,
                ;
            }
            assert(a <= s < b && day_of(s) == d);
        }
        assert(ticket_days(t) =~= day_range(day_of(a), day_of(b - 1)));
    } else {
        assert(ticket_days(t) =~= Set::<int>::empty());
    }
}

/// The day of a timestamp.
pub fn day(timestamp: u32) -> (r: u32)
    ensures
        r == day_of(timestamp as int),
{
    timestamp / SECONDS_PER_DAY
}

/// The distance between two numbers.
pub open spec fn distance(a: int, b: int) -> nat {
    if a >= b {
        (a - b) as nat
    } else {
        (b - a) as nat
    }
}

/// The average speed, in hundredths of miles per hour, of a vehicle that
/// passes `mile1` at `ts1` and `mile2` at `ts2`: miles per hour rounded to
/// the nearest integer (halves up), times 100, saturating at `u16::MAX`.
/// The timestamps differ.
pub open spec fn speed_of(ts1: u32, ts2: u32, mile1: u16, mile2: u16) -> nat {
    let dt = distance(ts1 as int, ts2 as int);
    let dm = distance(mile1 as int, mile2 as int);
    let mph = (dm * 7200 + dt) / (2 * dt);
    if mph * 100 > 65535 {
        65535
    } else {
        mph * 100
    }
}

/// The speed of a violation between two sightings, if the timestamps differ
/// and the speed exceeds `limit` (in hundredths of miles per hour).
pub open spec fn violation(limit: u16, ts1: u32, ts2: u32, mile1: u16, mile2: u16) -> Option<u16> {
    if ts1 != ts2 && speed_of(ts1, ts2, mile1, mile2) > limit {
        Some(speed_of(ts1, ts2, mile1, mile2) as u16)
    } else {
        None
    }
}

/// The limit of a road in hundredths of miles per hour, saturating at
/// `u16::MAX`.
pub open spec fn limit_hundredths(limit: u16) -> u16 {
    if limit * 100 > 65535 {
        65535
    } else {
        (limit * 100) as u16
    }
}

/// The speed between two sightings, if it exceeds `limit` (in hundredths of
/// miles per hour). Sightings at the same time give none.
pub fn is_violation(limit: u16, ts1: u32, ts2: u32, mile1: u16, mile2: u16) -> (r: Option<u16>)
    ensures
        r == violation(limit, ts1, ts2, mile1, mile2),
{
    if ts1 == ts2 {
        return None;
    }
    let dt: u64 = if ts1 >= ts2 {
        (ts1 - ts2) as u64
    } else {
        (ts2 - ts1) as u64
    };
    let dm: u64 = if mile1 >= mile2 {
        (mile1 - mile2) as u64
    } else {
        (mile2 - mile1) as u64
    };
    assert(dm * 7200 + dt <= 65535 * 7200 + 4294967295) by (nonlinear_arith)
        requires
            dm <= 65535,
            dt <= 4294967295,
    ;
    let mph: u64 = (dm * 7200 + dt) / (2 * dt);
    assert(mph <= dm * 7200 + dt) by (nonlinear_arith)
        requires
            dt >= 1,
            mph == (dm * 7200 + dt) / (2 * dt),
    ;
    let speed: u64 = if mph * 100 > 65535 {
        65535
    } else {
        mph * 100
    };
    if speed > limit as u64 {
        Some(speed as u16)
    } else {
        None
    }
}

/// The limit of a road in hundredths of miles per hour.
pub fn hundredths(limit: u16) -> (r: u16)
    ensures
        r == limit_hundredths(limit),
{
    if limit as u32 * 100 > 65535 {
        65535
    } else {
        limit * 100
    }
}

/// Whether the sightings are in strictly increasing order of time.
pub open spec fn sorted(s: Seq<(u32, u16)>) -> bool {
    forall|i: int, j: int| 0 <= i < j < s.len() ==> #[trigger] s[i].0 < #[trigger] s[j].0
}

/// The number of leading sightings that come before time `t`: where a
/// sighting at `t` goes.
pub open spec fn lower_bound(s: Seq<(u32, u16)>, t: u32) -> nat
    decreases s.len(),
{
    if s.len() > 0 && s[0].0 < t {
        1 + lower_bound(s.drop_first(), t)
    } else {
        0
    }
}

/// The sightings after one more at time `t` and mile `mile`: a sighting at
/// the same time is replaced.
pub open spec fn with_sighting(s: Seq<(u32, u16)>, t: u32, mile: u16) -> Seq<(u32, u16)> {
    let i = lower_bound(s, t) as int;
    if i < s.len() && s[i].0 == t {
        s.update(i, (t, mile))
    } else {
        s.insert(i, (t, mile))
    }
}

/// The ticket for a pair of sightings.
pub open spec fn ticket_model(
    plate: Seq<char>,
    road: u16,
    mile1: u16,
    timestamp1: u32,
    mile2: u16,
    timestamp2: u32,
    speed: u16,
) -> TicketModel {
    TicketModel { plate, road, mile1, timestamp1, mile2, timestamp2, speed }
}

/// The candidate tickets of a sighting at `t` and `mile` by a camera on
/// `road` with limit `limit` (in hundredths), given the earlier sightings
/// `s` of the plate on that road: first the pair with the latest sighting
/// before `t`, then the pair with the earliest sighting at or after `t`,
/// each when it is a violation.
pub open spec fn candidates(
    plate: Seq<char>,
    road: u16,
    mile: u16,
    limit: u16,
    s: Seq<(u32, u16)>,
    t: u32,
) -> Seq<TicketModel> {
    let i = lower_bound(s, t) as int;
    let before = if i > 0 && violation(limit, s[i - 1].0, t, s[i - 1].1, mile) is Some {
        seq![
            ticket_model(
                plate,
                road,
                s[i - 1].1,
                s[i - 1].0,
                mile,
                t,
                violation(limit, s[i - 1].0, t, s[i - 1].1, mile)->0,
            ),
        ]
    } else {
        Seq::empty()
    };
    let after = if i < s.len() && violation(limit, t, s[i].0, mile, s[i].1) is Some {
        seq![
            ticket_model(
                plate,
                road,
                mile,
                t,
                s[i].1,
                s[i].0,
                violation(limit, t, s[i].0, mile, s[i].1)->0,
            ),
        ]
    } else {
        Seq::empty()
    };
    before + after
}

/// Whether none of the days of `t` is among `days`.
pub open spec fn clear_of(days: Set<int>, t: TicketModel) -> bool {
    forall|d: int| #[trigger] ticket_days(t).contains(d) ==> !days.contains(d)
}

/// The first candidate none of whose days is among `days`.
pub open spec fn first_clear(days: Set<int>, cands: Seq<TicketModel>) -> Option<TicketModel>
    decreases cands.len(),
{
    if cands.len() == 0 {
        None
    } else if clear_of(days, cands[0]) {
        Some(cands[0])
    } else {
        first_clear(days, cands.drop_first())
    }
}

/// In sorted sightings, those before the lower bound of `t` come before
/// `t`, and the others do not.
pub proof fn lemma_lower_bound(s: Seq<(u32, u16)>, t: u32)
    requires
        sorted(s),
    ensures
        lower_bound(s, t) <= s.len(),
        forall|j: int| 0 <= j < lower_bound(s, t) ==> #[trigger] s[j].0 < t,
        forall|j: int| lower_bound(s, t) <= j < s.len() ==> #[trigger] s[j].0 >= t,
    decreases s.len(),
{
    if s.len() > 0 {
        let tail = s.drop_first();
        assert(sorted(tail)) by {
            assert forall|i: int, j: int| 0 <= i < j < tail.len() implies #[trigger] tail[i].0
                < #[trigger] tail[j].0 by {
                assert(s[i + 1].0 < s[j + 1].0);
            }
        }
        lemma_lower_bound(tail, t);
        if s[0].0 < t {
            assert forall|j: int| 0 <= j < lower_bound(s, t) implies #[trigger] s[j].0 < t by {
                if j > 0 {
                    assert(tail[j - 1].0 < t);
                }
            }
            assert forall|j: int| lower_bound(s, t) <= j < s.len() implies #[trigger] s[j].0 >= t by {
                assert(tail[j - 1].0 >= t);
            }
        } else {
            assert forall|j: int| lower_bound(s, t) <= j < s.len() implies #[trigger] s[j].0 >= t by {
                if j > 0 {
                    assert(s[0].0 < s[j].0);
                }
            }
        }
    }
}

/// One more sighting keeps the sightings in order.
pub proof fn lemma_with_sighting_sorted(s: Seq<(u32, u16)>, t: u32, mile: u16)
    requires
        sorted(s),
    ensures
        sorted(with_sighting(s, t, mile)),
{
    lemma_lower_bound(s, t);
    let i = lower_bound(s, t) as int;
    let n = with_sighting(s, t, mile);
    if i < s.len() && s[i].0 == t {
        assert forall|a: int, b: int| 0 <= a < b < n.len() implies #[trigger] n[a].0
            < #[trigger] n[b].0 by {
            assert(s[a].0 < s[b].0);
        }
    } else {
        assert forall|a: int, b: int| 0 <= a < b < n.len() implies #[trigger] n[a].0
            < #[trigger] n[b].0 by {
            if b < i {
                assert(s[a].0 < s[b].0);
            } else if b == i {
                assert(s[a].0 < t);
            } else if a < i {
                assert(s[a].0 < t);
                assert(s[b - 1].0 >= t);
            } else if a == i {
                assert(s[b - 1].0 >= t);
            } else {
                assert(s[a - 1].0 < s[b - 1].0);
            }
        }
    }
}

/// Where a sighting at `t` goes among `s`.
fn find_lower_bound(s: &Vec<(u32, u16)>, t: u32) -> (i: usize)
    ensures
        i == lower_bound(s@, t),
{
    let mut i: usize = 0;
    assert(s@.subrange(0, s@.len() as int) =~= s@);
    while i < s.len() && s[i].0 < t
        invariant
            i <= s@.len(),
            lower_bound(s@, t) == i + lower_bound(s@.subrange(i as int, s@.len() as int), t),
        decreases s.len() - i,
    {
        assert(s@.subrange(i as int, s@.len() as int).drop_first() =~= s@.subrange(
            i + 1,
            s@.len() as int,
        ));
        i = i + 1;
    }
    i
}

/// Every candidate ticket is for `plate` and has its first timestamp
/// strictly before its second.
pub proof fn lemma_candidates_ordered(
    plate: Seq<char>,
    road: u16,
    mile: u16,
    limit: u16,
    s: Seq<(u32, u16)>,
    t: u32,
)
    requires
        sorted(s),
    ensures
        candidates(plate, road, mile, limit, s, t).len() <= 2,
        forall|j: int|
            0 <= j < candidates(plate, road, mile, limit, s, t).len() ==> (#[trigger] candidates(
                plate,
                road,
                mile,
                limit,
                s,
                t,
            )[j]).timestamp1 < candidates(plate, road, mile, limit, s, t)[j].timestamp2
                && candidates(plate, road, mile, limit, s, t)[j].plate == plate
                && candidates(plate, road, mile, limit, s, t)[j].road == road
                && candidates(plate, road, mile, limit, s, t)[j].speed > limit,
{
    lemma_lower_bound(s, t);
    let i = lower_bound(s, t) as int;
    if i > 0 {
        assert(s[i - 1].0 < t);
    }
    if i < s.len() {
        assert(s[i].0 >= t);
    }
}

fn copy_string(s: &String) -> (r: String)
    ensures
        r@ == s@,
{
    s.clone()
}

fn copy_ticket(t: &TicketRecord) -> (r: TicketRecord)
    ensures
        r@ == t@,
{
    TicketRecord {
        plate: copy_string(&t.plate),
        road: t.road,
        mile1: t.mile1,
        timestamp1: t.timestamp1,
        mile2: t.mile2,
        timestamp2: t.timestamp2,
        speed: t.speed,
    }
}

/// The sightings of one plate on one road.
struct Sightings {
    plate: String,
    road: u16,
    seen: Vec<(u32, u16)>,
}

/// Days on which a plate was ticketed, from `first` to `last`.
struct DayRange {
    plate: String,
    first: u32,
    last: u32,
}

/// The state of the violation detector.
///
/// Its maps are vectors with their invariant in `wf`: the sightings are
/// keyed by plate and road, the ticketed days and the dispatched tickets by
/// plate. Plates are strings, and with string keys the standard maps give
/// no usable contract, so the lookups are loops whose results are proved.
/// The limits are keyed by road alongside them.
pub struct Collector {
    records: Vec<Sightings>,
    ticketed: Vec<DayRange>,
    limits: Vec<(u16, u16)>,
    dispatched: Ghost<Seq<TicketModel>>,
}

impl Collector {
    /// The sightings of `plate` on `road`, in order of time.
    pub closed spec fn history(self, plate: Seq<char>, road: u16) -> Seq<(u32, u16)> {
        if exists|i: int|
            0 <= i < self.records@.len() && #[trigger] self.records@[i].plate@ == plate
                && self.records@[i].road == road {
            let i = choose|i: int|
                0 <= i < self.records@.len() && #[trigger] self.records@[i].plate@ == plate
                    && self.records@[i].road == road;
            self.records@[i].seen@
        } else {
            Seq::empty()
        }
    }

    /// The days on which `plate` has been ticketed.
    pub closed spec fn ticketed_days(self, plate: Seq<char>) -> Set<int> {
        Set::new(
            |d: int|
                exists|i: int|
                    0 <= i < self.ticketed@.len() && #[trigger] self.ticketed@[i].plate@ == plate
                        && self.ticketed@[i].first <= d <= self.ticketed@[i].last,
        )
    }

    /// The limit recorded for `road`, in hundredths of miles per hour.
    pub closed spec fn limit_of(self, road: u16) -> Option<u16> {
        if exists|i: int| 0 <= i < self.limits@.len() && #[trigger] self.limits@[i].0 == road {
            let i = choose|i: int| 0 <= i < self.limits@.len() && #[trigger] self.limits@[i].0 == road;
            Some(self.limits@[i].1)
        } else {
            None
        }
    }

    /// The tickets dispatched so far, in order.
    pub closed spec fn dispatched(self) -> Seq<TicketModel> {
        self.dispatched@
    }

    /// The invariant of the detector.
    pub closed spec fn wf(self) -> bool {
        &&& forall|i: int| 0 <= i < self.records@.len() ==> sorted(#[trigger] self.records@[i].seen@)
        &&& forall|i: int, j: int|
            0 <= i < self.records@.len() && 0 <= j < self.records@.len()
                && #[trigger] self.records@[i].plate@ == #[trigger] self.records@[j].plate@
                && self.records@[i].road == self.records@[j].road ==> i == j
        &&& forall|i: int, j: int|
            0 <= i < self.limits@.len() && 0 <= j < self.limits@.len() && #[trigger] self.limits@[i].0
                == #[trigger] self.limits@[j].0 ==> i == j
        &&& forall|i: int|
            0 <= i < self.dispatched@.len() ==> (#[trigger] self.dispatched@[i]).timestamp1
                < self.dispatched@[i].timestamp2
        &&& forall|i: int, d: int|
            0 <= i < self.dispatched@.len() && #[trigger] ticket_days(self.dispatched@[i]).contains(d)
                ==> self.ticketed_days(self.dispatched@[i].plate).contains(d)
        &&& forall|i: int, j: int, d: int|
            0 <= i < j < self.dispatched@.len() && self.dispatched@[i].plate
                == self.dispatched@[j].plate && #[trigger] ticket_days(self.dispatched@[i]).contains(d)
                ==> !#[trigger] ticket_days(self.dispatched@[j]).contains(d)
    }

    closed spec fn keys_unique(self) -> bool {
        forall|i: int, j: int|
            0 <= i < self.records@.len() && 0 <= j < self.records@.len()
                && #[trigger] self.records@[i].plate@ == #[trigger] self.records@[j].plate@
                && self.records@[i].road == self.records@[j].road ==> i == j
    }

    proof fn lemma_history_at(self, i: int)
        requires
            self.keys_unique(),
            0 <= i < self.records@.len(),
        ensures
            self.history(self.records@[i].plate@, self.records@[i].road) == self.records@[i].seen@,
    {
        let p = self.records@[i].plate@;
        let r = self.records@[i].road;
        assert(self.records@[i].plate@ == p && self.records@[i].road == r);
        let j = choose|j: int|
            0 <= j < self.records@.len() && #[trigger] self.records@[j].plate@ == p
                && self.records@[j].road == r;
        assert(self.records@[j].plate@ == self.records@[i].plate@);
    }

    proof fn lemma_limit_at(self, i: int)
        requires
            forall|a: int, b: int|
                0 <= a < self.limits@.len() && 0 <= b < self.limits@.len()
                    && #[trigger] self.limits@[a].0 == #[trigger] self.limits@[b].0 ==> a == b,
            0 <= i < self.limits@.len(),
        ensures
            self.limit_of(self.limits@[i].0) == Some(self.limits@[i].1),
    {
        let road = self.limits@[i].0;
        assert(self.limits@[i].0 == road);
        let j = choose|j: int| 0 <= j < self.limits@.len() && #[trigger] self.limits@[j].0 == road;
        assert(self.limits@[j].0 == self.limits@[i].0);
    }

    /// Changing or adding the limit of `road` alone keeps the limits of the
    /// other roads.
    proof fn lemma_other_limits(before: Collector, after: Collector, road: u16)
        requires
            before.wf(),
            after.wf(),
            after.limits@.len() >= before.limits@.len(),
            forall|j: int|
                0 <= j < before.limits@.len() && before.limits@[j].0 != road ==> after.limits@[j]
                    == before.limits@[j],
            forall|j: int|
                0 <= j < after.limits@.len() && (j >= before.limits@.len() || before.limits@[j].0
                    == road) ==> after.limits@[j].0 == road,
        ensures
            forall|r: u16| r != road ==> #[trigger] after.limit_of(r) == before.limit_of(r),
    {
        assert forall|r: u16| r != road implies #[trigger] after.limit_of(r) == before.limit_of(r) by {
            if exists|j: int| 0 <= j < before.limits@.len() && #[trigger] before.limits@[j].0 == r {
                let j = choose|j: int| 0 <= j < before.limits@.len() && #[trigger] before.limits@[j].0 == r;
                before.lemma_limit_at(j);
                after.lemma_limit_at(j);
            } else {
                assert forall|j: int| 0 <= j < after.limits@.len() implies #[trigger] after.limits@[j].0 != r by {
                    if j < before.limits@.len() && before.limits@[j].0 != road {
                        assert(after.limits@[j] == before.limits@[j]);
                    }
                }
            }
        }
    }

    /// Records `limit` (in hundredths) as the limit of `road`.
    fn set_limit(&mut self, road: u16, limit: u16)
        requires
            old(self).wf(),
        ensures
            final(self).wf(),
            final(self).limit_of(road) == Some(limit),
            forall|r: u16| r != road ==> #[trigger] final(self).limit_of(r) == old(self).limit_of(r),
            final(self).records == old(self).records,
            final(self).ticketed == old(self).ticketed,
            final(self).dispatched == old(self).dispatched,
    {
        let mut i: usize = 0;
        while i < self.limits.len()
            invariant
                i <= self.limits@.len(),
                *self == *old(self),
                old(self).wf(),
                forall|j: int| 0 <= j < i ==> self.limits@[j].0 != road,
            decreases self.limits.len() - i,
        {
            if self.limits[i].0 == road {
                let ghost before = self.limits@;
                self.limits.set(i, (road, limit));
                proof {
                    assert(self.limits@ == before.update(i as int, (road, limit)));
                    self.lemma_limit_at(i as int);
                    Collector::lemma_other_limits(*old(self), *self, road);
                }
                return;
            }
            i = i + 1;
        }
        let ghost before = self.limits@;
        self.limits.push((road, limit));
        proof {
            self.lemma_limit_at(before.len() as int);
            Collector::lemma_other_limits(*old(self), *self, road);
        }
    }

    /// The index of the sightings of `plate` on `road`, added empty if there
    /// were none.
    fn find_or_add(&mut self, plate: &String, road: u16) -> (k: usize)
        requires
            old(self).wf(),
        ensures
            final(self).wf(),
            k < final(self).records@.len(),
            final(self).records@[k as int].plate@ == plate@,
            final(self).records@[k as int].road == road,
            forall|p: Seq<char>, r: u16| #[trigger] final(self).history(p, r) == old(self).history(p, r),
            final(self).ticketed == old(self).ticketed,
            final(self).limits == old(self).limits,
            final(self).dispatched == old(self).dispatched,
    {
        let mut i: usize = 0;
        while i < self.records.len()
            invariant
                i <= self.records@.len(),
                *self == *old(self),
                old(self).wf(),
                forall|j: int|
                    0 <= j < i ==> !(#[trigger] self.records@[j].plate@ == plate@
                        && self.records@[j].road == road),
            decreases self.records.len() - i,
        {
            if self.records[i].road == road && self.records[i].plate == *plate {
                return i;
            }
            i = i + 1;
        }
        let ghost before = *self;
        self.records.push(Sightings { plate: plate.clone(), road, seen: Vec::new() });
        let k = self.records.len() - 1;
        proof {
            assert(self.keys_unique());
            assert forall|p: Seq<char>, r: u16| #[trigger] self.history(p, r) == before.history(
                p,
                r,
            ) by {
                if exists|j: int|
                    0 <= j < before.records@.len() && #[trigger] before.records@[j].plate@ == p
                        && before.records@[j].road == r {
                    let j = choose|j: int|
                        0 <= j < before.records@.len() && #[trigger] before.records@[j].plate@ == p
                            && before.records@[j].road == r;
                    before.lemma_history_at(j);
                    self.lemma_history_at(j);
                } else if p == plate@ && r == road {
                    self.lemma_history_at(k as int);
                    assert(self.records@[k as int].seen@ =~= Seq::<(u32, u16)>::empty());
                } else {
                    assert(!exists|j: int|
                        0 <= j < self.records@.len() && #[trigger] self.records@[j].plate@ == p
                            && self.records@[j].road == r);
                }
            }
            assert forall|d: int, i: int| 0 <= i < self.dispatched@.len() && #[trigger] ticket_days(self.dispatched@[i]).contains(d)
                implies self.ticketed_days(self.dispatched@[i].plate).contains(d) by {
                assert(before.ticketed_days(before.dispatched@[i].plate).contains(d));
            }
        }
        k
    }

    proof fn lemma_replace_seen(old: Collector, new: Collector, k: int, seen: Seq<(u32, u16)>)
        requires
            old.keys_unique(),
            0 <= k < old.records@.len(),
            new.records@.len() == old.records@.len(),
            forall|j: int| 0 <= j < old.records@.len() && j != k ==> new.records@[j] == old.records@[j],
            new.records@[k].plate@ == old.records@[k].plate@,
            new.records@[k].road == old.records@[k].road,
            new.records@[k].seen@ == seen,
        ensures
            new.keys_unique(),
            new.history(old.records@[k].plate@, old.records@[k].road) == seen,
            forall|p: Seq<char>, r: u16|
                !(p == old.records@[k].plate@ && r == old.records@[k].road) ==> #[trigger] new.history(
                    p,
                    r,
                ) == old.history(p, r),
    {
        assert forall|i: int, j: int|
            0 <= i < new.records@.len() && 0 <= j < new.records@.len()
                && #[trigger] new.records@[i].plate@ == #[trigger] new.records@[j].plate@
                && new.records@[i].road == new.records@[j].road implies i == j by {
            assert(old.records@[i].plate@ == old.records@[j].plate@);
        }
        new.lemma_history_at(k);
        assert forall|p: Seq<char>, r: u16|
            !(p == old.records@[k].plate@ && r == old.records@[k].road) implies #[trigger] new.history(
                p,
                r,
            ) == old.history(p, r) by {
            if exists|j: int|
                0 <= j < old.records@.len() && #[trigger] old.records@[j].plate@ == p
                    && old.records@[j].road == r {
                let j = choose|j: int|
                    0 <= j < old.records@.len() && #[trigger] old.records@[j].plate@ == p
                        && old.records@[j].road == r;
                old.lemma_history_at(j);
                new.lemma_history_at(j);
            } else {
                assert forall|j: int| 0 <= j < new.records@.len() implies !(
                #[trigger] new.records@[j].plate@ == p && new.records@[j].road == r) by {
                    if j != k {
                        assert(new.records@[j] == old.records@[j]);
                    }
                }
            }
        }
    }

    /// Records the sighting and returns the candidate tickets it gives, in
    /// order: the pair with the previous sighting first. Every candidate is
    /// for the sighting's plate and road, has its first timestamp strictly
    /// before its second, and a speed above the road's recorded limit.
    pub fn insert_record(&mut self, record: &PlateRecord, camera: &Camera) -> (tickets: Vec<TicketRecord>)
        requires
            old(self).wf(),
        ensures
            final(self).wf(),
            final(self).limit_of(camera.road) == Some(limit_hundredths(camera.limit)),
            forall|r: u16| r != camera.road ==> #[trigger] final(self).limit_of(r) == old(self).limit_of(r),
            final(self).history(record.plate@, camera.road) == with_sighting(
                old(self).history(record.plate@, camera.road),
                record.timestamp,
                camera.mile,
            ),
            forall|p: Seq<char>, r: u16|
                !(p == record.plate@ && r == camera.road) ==> #[trigger] final(self).history(p, r)
                    == old(self).history(p, r),
            tickets@.map_values(|t: TicketRecord| t@) == candidates(
                record.plate@,
                camera.road,
                camera.mile,
                limit_hundredths(camera.limit),
                old(self).history(record.plate@, camera.road),
                record.timestamp,
            ),
            tickets@.len() <= 2,
            forall|j: int|
                0 <= j < tickets@.len() ==> (#[trigger] tickets@[j]).timestamp1 < tickets@[j].timestamp2
                    && tickets@[j].speed > limit_hundredths(camera.limit) && tickets@[j].road
                    == camera.road && tickets@[j].plate@ == record.plate@,
            forall|p: Seq<char>| #[trigger] final(self).ticketed_days(p) == old(self).ticketed_days(p),
            final(self).dispatched() == old(self).dispatched(),
    {
        let ts = record.timestamp;
        let mile = camera.mile;
        let road = camera.road;
        let limit = hundredths(camera.limit);
        self.set_limit(road, limit);
        let ghost after_limit = *self;
        let k = self.find_or_add(&record.plate, road);
        proof {
            self.lemma_history_at(k as int);
        }
        let ghost mid = *self;
        let ghost h = self.records@[k as int].seen@;
        let i = find_lower_bound(&self.records[k].seen, ts);
        proof {
            lemma_lower_bound(h, ts);
            lemma_candidates_ordered(record.plate@, road, mile, limit, h, ts);
        }
        let n = self.records[k].seen.len();
        let prev: Option<(u32, u16)> = if i > 0 {
            Some(self.records[k].seen[i - 1])
        } else {
            None
        };
        let next: Option<(u32, u16)> = if i < n {
            Some(self.records[k].seen[i])
        } else {
            None
        };
        let mut rec = self.records.remove(k);
        if i < rec.seen.len() && rec.seen[i].0 == ts {
            rec.seen.set(i, (ts, mile));
        } else {
            rec.seen.insert(i, (ts, mile));
        }
        assert(rec.seen@ =~= with_sighting(h, ts, mile));
        self.records.insert(k, rec);
        proof {
            lemma_with_sighting_sorted(h, ts, mile);
            Collector::lemma_replace_seen(mid, *self, k as int, with_sighting(h, ts, mile));
            assert forall|i: int, d: int|
                0 <= i < self.dispatched@.len() && #[trigger] ticket_days(self.dispatched@[i]).contains(d)
                    implies self.ticketed_days(self.dispatched@[i].plate).contains(d) by {
                assert(mid.ticketed_days(mid.dispatched@[i].plate).contains(d));
            }
            assert(forall|j: int| 0 <= j < self.records@.len() && j != k ==> self.records@[j] == mid.records@[j]);
            assert(self.limits == after_limit.limits);
            assert forall|r: u16| #[trigger] self.limit_of(r) == after_limit.limit_of(r) by {}
        }
        let mut tickets: Vec<TicketRecord> = Vec::new();
        if let Some((earlier, previous_mile)) = prev {
            if let Some(speed) = is_violation(limit, earlier, ts, previous_mile, mile) {
                tickets.push(
                    TicketRecord {
                        plate: copy_string(&record.plate),
                        road,
                        mile1: previous_mile,
                        timestamp1: earlier,
                        mile2: mile,
                        timestamp2: ts,
                        speed,
                    },
                );
            }
        }
        let ghost first = tickets@;
        if let Some((later, next_mile)) = next {
            if let Some(speed) = is_violation(limit, ts, later, mile, next_mile) {
                tickets.push(
                    TicketRecord {
                        plate: copy_string(&record.plate),
                        road,
                        mile1: mile,
                        timestamp1: ts,
                        mile2: next_mile,
                        timestamp2: later,
                        speed,
                    },
                );
            }
        }
        assert(tickets@.map_values(|t: TicketRecord| t@) =~= candidates(
            record.plate@,
            road,
            mile,
            limit,
            h,
            ts,
        ));
        assert(forall|j: int|
            0 <= j < tickets@.len() ==> tickets@.map_values(|t: TicketRecord| t@)[j] == tickets@[j]@);
        assert(self.ticketed == old(self).ticketed);
        assert forall|p: Seq<char>| #[trigger] self.ticketed_days(p) == old(self).ticketed_days(p) by {}
        tickets
    }

    /// Whether `plate` was ticketed on one of the days from `lo` to `hi`.
    fn clashes(&self, plate: &String, lo: u32, hi: u32) -> (r: bool)
        requires
            lo <= hi,
        ensures
            r == exists|d: int| lo <= d <= hi && #[trigger] self.ticketed_days(plate@).contains(d),
    {
        let mut i: usize = 0;
        while i < self.ticketed.len()
            invariant
                i <= self.ticketed@.len(),
                lo <= hi,
                forall|j: int|
                    0 <= j < i ==> !(#[trigger] self.ticketed@[j].plate@ == plate@ && self.ticketed@[j].first
                        <= hi && lo <= self.ticketed@[j].last && self.ticketed@[j].first
                        <= self.ticketed@[j].last),
            decreases self.ticketed.len() - i,
        {
            let e = &self.ticketed[i];
            if e.first <= hi && lo <= e.last && e.first <= e.last && e.plate == *plate {
                let d = if lo > e.first {
                    lo
                } else {
                    e.first
                };
                assert(self.ticketed@[i as int].plate@ == plate@);
                assert(self.ticketed_days(plate@).contains(d as int));
                return true;
            }
            i = i + 1;
        }
        assert forall|d: int| lo <= d <= hi implies !#[trigger] self.ticketed_days(plate@).contains(d) by {
            if self.ticketed_days(plate@).contains(d) {
                let j = choose|j: int|
                    0 <= j < self.ticketed@.len() && #[trigger] self.ticketed@[j].plate@ == plate@
                        && self.ticketed@[j].first <= d <= self.ticketed@[j].last;
                assert(!(self.ticketed@[j].plate@ == plate@ && self.ticketed@[j].first <= hi && lo
                    <= self.ticketed@[j].last && self.ticketed@[j].first <= self.ticketed@[j].last));
            }
        }
        false
    }

    /// Dispatches the first of `tickets` none of whose days the plate was
    /// ticketed on: records its days and returns it.
    fn dispatch_for(&mut self, tickets: &Vec<TicketRecord>, Ghost(plate): Ghost<Seq<char>>) -> (r:
        Option<TicketRecord>)
        requires
            old(self).wf(),
            forall|j: int|
                0 <= j < tickets@.len() ==> (#[trigger] tickets@[j]).timestamp1 < tickets@[j].timestamp2
                    && tickets@[j].plate@ == plate,
        ensures
            final(self).wf(),
            final(self).records == old(self).records,
            final(self).limits == old(self).limits,
            r is None ==> first_clear(
                old(self).ticketed_days(plate),
                tickets@.map_values(|t: TicketRecord| t@),
            ) is None && final(self).ticketed == old(self).ticketed && final(self).dispatched
                == old(self).dispatched,
            r matches Some(t) ==> first_clear(
                old(self).ticketed_days(plate),
                tickets@.map_values(|t: TicketRecord| t@),
            ) == Some(t@) && t@.plate == plate && final(self).dispatched@ == old(self).dispatched@.push(t@) && (forall|p: Seq<char>|
                #[trigger] final(self).ticketed_days(p) == if p == plate {
                    old(self).ticketed_days(p).union(ticket_days(t@))
                } else {
                    old(self).ticketed_days(p)
                }),
    {
        let ghost cands = tickets@.map_values(|t: TicketRecord| t@);
        let ghost days = self.ticketed_days(plate);
        let mut k: usize = 0;
        assert(cands.subrange(0, cands.len() as int) =~= cands);
        while k < tickets.len()
            invariant
                k <= tickets@.len(),
                *self == *old(self),
                old(self).wf(),
                cands == tickets@.map_values(|t: TicketRecord| t@),
                days == self.ticketed_days(plate),
                first_clear(days, cands) == first_clear(days, cands.subrange(k as int, cands.len() as int)),
                forall|j: int|
                    0 <= j < tickets@.len() ==> (#[trigger] tickets@[j]).timestamp1 < tickets@[j].timestamp2
                        && tickets@[j].plate@ == plate,
            decreases tickets.len() - k,
        {
            let t = &tickets[k];
            let lo = day(t.timestamp1);
            let hi = day(t.timestamp2 - 1);
            let ghost rest = cands.subrange(k as int, cands.len() as int);
            proof {
                assert(tickets@[k as int].timestamp1 < tickets@[k as int].timestamp2);
                assert(tickets@[k as int].plate@ == plate);
                lemma_ticket_days(t@);
                vstd::arithmetic::div_mod::lemma_div_is_ordered(
                    t.timestamp1 as int,
                    t.timestamp2 - 1,
                    86400,
                );
                assert(rest[0] == t@);
            }
            if !self.clashes(&t.plate, lo, hi) {
                let ghost before = *self;
                assert(clear_of(days, t@));
                self.ticketed.push(DayRange { plate: copy_string(&t.plate), first: lo, last: hi });
                self.dispatched = Ghost(self.dispatched@.push(t@));
                proof {
                    assert forall|p: Seq<char>| #[trigger] self.ticketed_days(p) == if p == plate {
                        before.ticketed_days(p).union(ticket_days(t@))
                    } else {
                        before.ticketed_days(p)
                    } by {
                        let n = before.ticketed@.len() as int;
                        assert forall|d: int| self.ticketed_days(p).contains(d) implies (if p == plate {
                            before.ticketed_days(p).union(ticket_days(t@))
                        } else {
                            before.ticketed_days(p)
                        }).contains(d) by {
                            let j = choose|j: int|
                                0 <= j < self.ticketed@.len() && #[trigger] self.ticketed@[j].plate@ == p
                                    && self.ticketed@[j].first <= d <= self.ticketed@[j].last;
                            if j < n {
                                assert(before.ticketed@[j].plate@ == p);
                            } else {
                                assert(day_range(lo as int, hi as int).contains(d));
                            }
                        }
                        assert forall|d: int| (if p == plate {
                            before.ticketed_days(p).union(ticket_days(t@))
                        } else {
                            before.ticketed_days(p)
                        }).contains(d) implies self.ticketed_days(p).contains(d) by {
                            if before.ticketed_days(p).contains(d) {
                                let j = choose|j: int|
                                    0 <= j < before.ticketed@.len() && #[trigger] before.ticketed@[j].plate@ == p
                                        && before.ticketed@[j].first <= d <= before.ticketed@[j].last;
                                assert(self.ticketed@[j].plate@ == p);
                            } else {
                                assert(day_range(lo as int, hi as int).contains(d));
                                assert(self.ticketed@[n].plate@ == p);
                            }
                        }
                        assert(self.ticketed_days(p) =~= (if p == plate {
                            before.ticketed_days(p).union(ticket_days(t@))
                        } else {
                            before.ticketed_days(p)
                        }));
                    }
                    let m = before.dispatched@.len() as int;
                    assert forall|i: int, d: int|
                        0 <= i < self.dispatched@.len() && #[trigger] ticket_days(self.dispatched@[i]).contains(d)
                            implies self.ticketed_days(self.dispatched@[i].plate).contains(d) by {
                        if i < m {
                            assert(before.ticketed_days(before.dispatched@[i].plate).contains(d));
                        }
                    }
                    assert forall|i: int, j: int, d: int|
                        0 <= i < j < self.dispatched@.len() && self.dispatched@[i].plate
                            == self.dispatched@[j].plate && #[trigger] ticket_days(self.dispatched@[i]).contains(d)
                            implies !#[trigger] ticket_days(self.dispatched@[j]).contains(d) by {
                        if j == m {
                            assert(before.ticketed_days(before.dispatched@[i].plate).contains(d));
                        }
                    }
                }
                return Some(copy_ticket(t));
            }
            proof {
                let d = choose|d: int| lo <= d <= hi && #[trigger] self.ticketed_days(plate).contains(d);
                assert(day_range(lo as int, hi as int).contains(d));
                assert(ticket_days(t@).contains(d));
                assert(!clear_of(days, t@));
                assert(rest.drop_first() =~= cands.subrange(k + 1, cands.len() as int));
            }
            k = k + 1;
        }
        None
    }

    /// Dispatches the first of `tickets`, candidates for one plate, none of
    /// whose days the plate was ticketed on: records its days and returns
    /// it. The others are dropped. No two tickets of a plate dispatched so
    /// far cover a common day.
    pub fn dispatch_tickets(&mut self, tickets: &Vec<TicketRecord>) -> (r: Option<TicketRecord>)
        requires
            old(self).wf(),
            forall|j: int|
                0 <= j < tickets@.len() ==> (#[trigger] tickets@[j]).timestamp1 < tickets@[j].timestamp2
                    && tickets@[j].plate@ == tickets@[0].plate@,
        ensures
            final(self).wf(),
            forall|p: Seq<char>, road: u16| #[trigger] final(self).history(p, road) == old(self).history(p, road),
            forall|road: u16| #[trigger] final(self).limit_of(road) == old(self).limit_of(road),
            ({
                let chosen = first_clear(
                    old(self).ticketed_days(tickets@[0].plate@),
                    tickets@.map_values(|t: TicketRecord| t@),
                );
                match r {
                    Some(t) => chosen == Some(t@),
                    None => chosen is None,
                }
            }),
            forall|p: Seq<char>|
                #[trigger] final(self).ticketed_days(p) == match r {
                    Some(t) => if p == t@.plate {
                        old(self).ticketed_days(p).union(ticket_days(t@))
                    } else {
                        old(self).ticketed_days(p)
                    },
                    None => old(self).ticketed_days(p),
                },
            final(self).dispatched() == match r {
                Some(t) => old(self).dispatched().push(t@),
                None => old(self).dispatched(),
            },
            forall|i: int, j: int|
                0 <= i < j < final(self).dispatched().len() && final(self).dispatched()[i].plate
                    == final(self).dispatched()[j].plate ==> ticket_days(
                    #[trigger] final(self).dispatched()[i],
                ).disjoint(ticket_days(#[trigger] final(self).dispatched()[j])),
    {
        let ghost plate = if tickets@.len() > 0 {
            tickets@[0].plate@
        } else {
            Seq::<char>::empty()
        };
        let r = self.dispatch_for(tickets, Ghost(plate));
        proof {
            assert forall|p: Seq<char>, road: u16| #[trigger] self.history(p, road) == old(self).history(p, road) by {}
            assert forall|road: u16| #[trigger] self.limit_of(road) == old(self).limit_of(road) by {}
            if tickets@.len() == 0 {
                assert(tickets@.map_values(|t: TicketRecord| t@) =~= Seq::<TicketModel>::empty());
                assert forall|p: Seq<char>| #[trigger] self.ticketed_days(p) == old(self).ticketed_days(p) by {}
            } else if r is None {
                assert forall|p: Seq<char>| #[trigger] self.ticketed_days(p) == old(self).ticketed_days(p) by {}
            }
            assert forall|i: int, j: int|
                0 <= i < j < self.dispatched().len() && self.dispatched()[i].plate
                    == self.dispatched()[j].plate implies ticket_days(
                    #[trigger] self.dispatched()[i],
                ).disjoint(ticket_days(#[trigger] self.dispatched()[j])) by {
                lemma_dispatched_days_disjoint(self, i, j);
            }
        }
        r
    }

    /// Takes in a sighting of `record.plate` by `camera`: records the road's
    /// limit and the sighting, and returns the ticket to dispatch, if any.
    ///
    /// The candidates are the pair with the latest earlier sighting of the
    /// plate on the road, then the pair with the earliest sighting at or
    /// after it, each when its average speed exceeds the limit. The first
    /// candidate none of whose days the plate was ticketed on is dispatched;
    /// its days are recorded and the other candidate is dropped.
    pub fn observe(&mut self, record: &PlateRecord, camera: &Camera) -> (r: Option<TicketRecord>)
        requires
            old(self).wf(),
        ensures
            final(self).wf(),
            final(self).limit_of(camera.road) == Some(limit_hundredths(camera.limit)),
            forall|road: u16| road != camera.road ==> #[trigger] final(self).limit_of(road) == old(self).limit_of(road),
            final(self).history(record.plate@, camera.road) == with_sighting(
                old(self).history(record.plate@, camera.road),
                record.timestamp,
                camera.mile,
            ),
            forall|p: Seq<char>, road: u16|
                !(p == record.plate@ && road == camera.road) ==> #[trigger] final(self).history(p, road)
                    == old(self).history(p, road),
            ({
                let chosen = first_clear(
                    old(self).ticketed_days(record.plate@),
                    candidates(
                        record.plate@,
                        camera.road,
                        camera.mile,
                        limit_hundredths(camera.limit),
                        old(self).history(record.plate@, camera.road),
                        record.timestamp,
                    ),
                );
                match r {
                    Some(t) => chosen == Some(t@),
                    None => chosen is None,
                }
            }),
            forall|p: Seq<char>|
                #[trigger] final(self).ticketed_days(p) == match r {
                    Some(t) => if p == record.plate@ {
                        old(self).ticketed_days(p).union(ticket_days(t@))
                    } else {
                        old(self).ticketed_days(p)
                    },
                    None => old(self).ticketed_days(p),
                },
            final(self).dispatched() == match r {
                Some(t) => old(self).dispatched().push(t@),
                None => old(self).dispatched(),
            },
            r matches Some(t) ==> (t.timestamp1 < t.timestamp2 && t.road == camera.road
                && final(self).limit_of(t.road) == Some(limit_hundredths(camera.limit))
                && t.speed > limit_hundredths(camera.limit)),
    {
        let ghost h = self.history(record.plate@, camera.road);
        proof {
            if exists|j: int|
                0 <= j < self.records@.len() && #[trigger] self.records@[j].plate@ == record.plate@
                    && self.records@[j].road == camera.road {
                let j = choose|j: int|
                    0 <= j < self.records@.len() && #[trigger] self.records@[j].plate@ == record.plate@
                        && self.records@[j].road == camera.road;
                self.lemma_history_at(j);
            }
            lemma_candidates_ordered(
                record.plate@,
                camera.road,
                camera.mile,
                limit_hundredths(camera.limit),
                h,
                record.timestamp,
            );
        }
        let tickets = self.insert_record(record, camera);
        let ghost mid = *self;
        proof {
            assert(forall|j: int|
                0 <= j < tickets@.len() ==> tickets@.map_values(|t: TicketRecord| t@)[j] == tickets@[j]@);
        }
        let r = self.dispatch_for(&tickets, Ghost(record.plate@));
        proof {
            assert forall|p: Seq<char>, road: u16| #[trigger] self.history(p, road) == mid.history(p, road) by {}
            assert forall|road: u16| #[trigger] self.limit_of(road) == mid.limit_of(road) by {}
            if r is Some {
                let t = r->0;
                let cands = tickets@.map_values(|t: TicketRecord| t@);
                lemma_first_clear_member(mid.ticketed_days(record.plate@), cands);
            }
        }
        r
    }

    /// A detector that has seen nothing.
    pub fn new() -> (r: Collector)
        ensures
            r.wf(),
            forall|p: Seq<char>, road: u16| #[trigger] r.history(p, road) == Seq::<(u32, u16)>::empty(),
            forall|p: Seq<char>| #[trigger] r.ticketed_days(p) == Set::<int>::empty(),
            forall|road: u16| #[trigger] r.limit_of(road) is None,
            r.dispatched() == Seq::<TicketModel>::empty(),
    {
        let r = Collector {
            records: Vec::new(),
            ticketed: Vec::new(),
            limits: Vec::new(),
            dispatched: Ghost(Seq::empty()),
        };
        assert forall|p: Seq<char>| #[trigger] r.ticketed_days(p) == Set::<int>::empty() by {
            assert(r.ticketed_days(p) =~= Set::<int>::empty());
        }
        r
    }
}

/// Every dispatched ticket has its first timestamp strictly before its
/// second.
pub proof fn lemma_dispatched_ordered(c: &Collector, i: int)
    requires
        c.wf(),
        0 <= i < c.dispatched().len(),
    ensures
        c.dispatched()[i].timestamp1 < c.dispatched()[i].timestamp2,
{
    assert(c.dispatched@[i].timestamp1 < c.dispatched@[i].timestamp2);
}

/// No two dispatched tickets of one plate cover a common day.
pub proof fn lemma_dispatched_days_disjoint(c: &Collector, i: int, j: int)
    requires
        c.wf(),
        0 <= i < c.dispatched().len(),
        0 <= j < c.dispatched().len(),
        i != j,
        c.dispatched()[i].plate == c.dispatched()[j].plate,
    ensures
        ticket_days(c.dispatched()[i]).disjoint(ticket_days(c.dispatched()[j])),
{
    assert forall|d: int| ticket_days(c.dispatched()[i]).contains(d) implies !ticket_days(
        c.dispatched()[j],
    ).contains(d) by {
        if i < j {
            assert(!ticket_days(c.dispatched@[j]).contains(d));
        } else if ticket_days(c.dispatched@[j]).contains(d) {
            assert(!ticket_days(c.dispatched@[i]).contains(d));
        }
    }
}

/// A sighting of a plate never seen on that road gives no candidate, so no
/// ticket.
pub proof fn lemma_lone_sighting(
    plate: Seq<char>,
    road: u16,
    mile: u16,
    limit: u16,
    t: u32,
    days: Set<int>,
)
    ensures
        candidates(plate, road, mile, limit, Seq::empty(), t) == Seq::<TicketModel>::empty(),
        first_clear(days, candidates(plate, road, mile, limit, Seq::empty(), t)) is None,
{
    assert(candidates(plate, road, mile, limit, Seq::empty(), t) =~= Seq::<TicketModel>::empty());
}

/// When both pairs of neighbouring sightings are violations, there are two
/// candidates and the day gate lets the earlier pair's ticket through alone,
/// as long as none of its days was ticketed before.
pub proof fn lemma_both_neighbours(
    plate: Seq<char>,
    road: u16,
    mile: u16,
    limit: u16,
    s: Seq<(u32, u16)>,
    t: u32,
    days: Set<int>,
)
    requires
        sorted(s),
        0 < lower_bound(s, t) < s.len(),
        violation(
            limit,
            s[lower_bound(s, t) - 1].0,
            t,
            s[lower_bound(s, t) - 1].1,
            mile,
        ) is Some,
        violation(limit, t, s[lower_bound(s, t) as int].0, mile, s[lower_bound(s, t) as int].1) is Some,
        clear_of(days, candidates(plate, road, mile, limit, s, t)[0]),
    ensures
        candidates(plate, road, mile, limit, s, t).len() == 2,
        candidates(plate, road, mile, limit, s, t)[0].timestamp2 == t,
        candidates(plate, road, mile, limit, s, t)[1].timestamp1 == t,
        first_clear(days, candidates(plate, road, mile, limit, s, t)) == Some(
            candidates(plate, road, mile, limit, s, t)[0],
        ),
{
}

/// The result of the day gate is one of the candidates.
pub proof fn lemma_first_clear_member(days: Set<int>, cands: Seq<TicketModel>)
    ensures
        first_clear(days, cands) matches Some(t) ==> exists|j: int| 0 <= j < cands.len() && cands[j] == t,
    decreases cands.len(),
{
    if cands.len() > 0 && !clear_of(days, cands[0]) {
        lemma_first_clear_member(days, cands.drop_first());
        if first_clear(days, cands.drop_first()) is Some {
            let t = first_clear(days, cands.drop_first())->0;
            let j = choose|j: int| 0 <= j < cands.drop_first().len() && cands.drop_first()[j] == t;
            assert(cands[j + 1] == t);
        }
    } else if cands.len() > 0 {
        assert(cands[0] == cands[0]);
    }
}

} // verus!
