//! The kinds of activity, distances, instants with an offset, and the
//! activity record.

use vstd::prelude::*;

verus! {

/// Seconds in one calendar day.
pub const SECONDS_PER_DAY: i64 = 86_400;

/// Micrometres in one metre.
pub const MICROMETRES_PER_METRE: u64 = 1_000_000;

/// The longest distance that can be held, in micrometres: about nine
/// million million metres. With it the sum of as many distances as a table
/// can have rows stays within 127 bits.
pub const MAX_MICROMETRES: u64 = 0x7fff_ffff_ffff_ffff;

/// A distance, held exactly as a whole number of micrometres.
#[derive(Clone, Copy, Debug, PartialEq, Eq, Structural)]
pub struct Distance {
    micrometres: u64,
}

impl View for Distance {
    type V = nat;

    /// The distance in micrometres.
    closed spec fn view(&self) -> nat {
        self.micrometres as nat
    }
}

impl Distance {
    #[verifier::type_invariant]
    spec fn within_reach(self) -> bool {
        self.micrometres <= MAX_MICROMETRES
    }

    /// The distance of `micrometres` micrometres.
    pub closed spec fn of_micrometres(micrometres: nat) -> Distance {
        Distance { micrometres: micrometres as u64 }
    }

    /// A distance is the distance of its micrometres.
    pub broadcast proof fn lemma_of_micrometres(self)
        ensures
            #[trigger] Distance::of_micrometres(self@) == self,
    {
    }

    /// The distance of a number within reach has that number of
    /// micrometres.
    pub broadcast proof fn lemma_view_of_micrometres(micrometres: nat)
        requires
            micrometres <= MAX_MICROMETRES,
        ensures
            #[trigger] Distance::of_micrometres(micrometres)@ == micrometres,
    {
    }

    /// The distance of `micrometres`, or `None` where it is above
    /// `MAX_MICROMETRES`.
    pub fn from_micrometres(micrometres: u64) -> (r: Option<Distance>)
        ensures
            r is Some == (micrometres <= MAX_MICROMETRES),
            r matches Some(d) ==> d@ == micrometres,
    {
        if micrometres <= MAX_MICROMETRES {
            Some(Distance { micrometres })
        } else {
            None
        }
    }

    /// The distance of `metres` whole metres, or `None` where it is above
    /// `MAX_MICROMETRES`.
    pub fn from_metres(metres: u64) -> (r: Option<Distance>)
        ensures
            r is Some == (metres * MICROMETRES_PER_METRE <= MAX_MICROMETRES),
            r matches Some(d) ==> d@ == metres * MICROMETRES_PER_METRE,
    {
        if metres <= MAX_MICROMETRES / MICROMETRES_PER_METRE {
            Some(Distance { micrometres: metres * MICROMETRES_PER_METRE })
        } else {
            None
        }
    }

    /// The distance in micrometres.
    pub fn micrometres(&self) -> (r: u64)
        ensures
            r == self@,
            r <= MAX_MICROMETRES,
    {
        proof {
            use_type_invariant(self);
        }
        self.micrometres
    }
}

/// The mode of travel of an activity.
#[derive(Clone, Copy, Debug, PartialEq, Eq, Structural)]
pub enum ActivityKind {
    Driving,
    Cycling,
}

impl ActivityKind {
    /// The amount by which an activity of this kind over `distance` moves the
    /// balance: up for driving, down for cycling.
    pub open spec fn signed(self, distance: int) -> int {
        match self {
            ActivityKind::Driving => distance,
            ActivityKind::Cycling => -distance,
        }
    }

    /// The kind that a category label names, if it names one.
    pub open spec fn of_category(label: Seq<char>) -> Option<ActivityKind> {
        if label == "Driving"@ {
            Some(ActivityKind::Driving)
        } else if label == "Cycling"@ {
            Some(ActivityKind::Cycling)
        } else {
            None
        }
    }

    /// Reads a category label: `Driving` and `Cycling` name a kind, every
    /// other label names none.
    pub fn from_category(label: &String) -> (kind: Option<ActivityKind>)
        ensures
            kind == ActivityKind::of_category(label@),
    {
        let driving = String::from_str("Driving");
        let cycling = String::from_str("Cycling");
        if *label == driving {
            Some(ActivityKind::Driving)
        } else if *label == cycling {
            Some(ActivityKind::Cycling)
        } else {
            None
        }
    }

    /// The label under which this kind appears in a table and in a report.
    pub fn label(&self) -> (text: &'static str)
        ensures
            text@ == (match *self {
                ActivityKind::Driving => "driving"@,
                ActivityKind::Cycling => "cycling"@,
            }),
    {
        match self {
            ActivityKind::Driving => "driving",
            ActivityKind::Cycling => "cycling",
        }
    }
}

/// A point in time together with the offset from UTC under which it is read
/// as a calendar date and a time of day.
#[derive(Clone, Copy, Debug, PartialEq, Eq, Structural)]
pub struct Instant {
    /// Whole seconds since 1970-01-01T00:00:00Z, leap seconds not counted.
    pub secs: i64,
    /// Nanoseconds since the last whole second.
    pub nanos: u32,
    /// Seconds to add to UTC to reach the wall clock (east is positive).
    pub offset: i32,
}

impl Instant {
    /// Whether this instant is at or before `other`. The offsets play no
    /// part: two instants are compared on the one time line.
    pub open spec fn at_or_before(self, other: Instant) -> bool {
        self.secs < other.secs || (self.secs == other.secs && self.nanos <= other.nanos)
    }

    /// The wall-clock seconds since 1970-01-01T00:00:00 under this instant's
    /// own offset.
    pub open spec fn wall_seconds(self) -> int {
        self.secs + self.offset
    }

    /// The calendar day on which this instant falls under its own offset,
    /// counted in days since 1970-01-01 (earlier days are negative).
    pub open spec fn day(self) -> int {
        self.wall_seconds() / (SECONDS_PER_DAY as int)
    }

    /// Compares two instants on the time line.
    pub fn is_at_or_before(&self, other: &Instant) -> (r: bool)
        ensures
            r == self.at_or_before(*other),
    {
        self.secs < other.secs || (self.secs == other.secs && self.nanos <= other.nanos)
    }

    /// The same point in time, read under another offset.
    pub fn with_offset(&self, offset: i32) -> (r: Instant)
        ensures
            r == (Instant { secs: self.secs, nanos: self.nanos, offset }),
    {
        Instant { secs: self.secs, nanos: self.nanos, offset }
    }

    /// The calendar day of this instant under its own offset, in days since
    /// 1970-01-01. The time of day is cut off, never rounded.
    pub fn day_number(&self) -> (d: i64)
        ensures
            d == self.day(),
    {
        let wall: i128 = self.secs as i128 + self.offset as i128;
        if wall >= 0 {
            (wall / 86_400) as i64
        } else {
            let back: i128 = -wall - 1;
            (-(back / 86_400) - 1) as i64
        }
    }
}

/// One activity: when it began and ended, how the distance was covered, and
/// how far it went.
#[derive(Clone, Copy, Debug, PartialEq, Eq, Structural)]
pub struct ActivityRecord {
    /// The instant at which the activity began.
    pub start: Instant,
    /// The instant at which the activity ended. Nothing checks that it is not
    /// before `start`.
    pub end: Instant,
    /// The mode of travel.
    pub activity: ActivityKind,
    /// The distance covered.
    pub distance: Distance,
}

} // verus!
