//! The unit of record: one reserved interval of one room.

use crate::time::{Instant, InstantView};
use vstd::prelude::*;

verus! {

/// The mathematical value of a [`Booking`].
pub struct BookingView {
    pub resource_id: int,
    pub booking_id: int,
    pub title: Seq<char>,
    pub start_time: InstantView,
    pub end_time: InstantView,
}

impl BookingView {
    /// The interval of the booking meets the closed window from `start` to
    /// `end`.
    pub open spec fn intersects(self, start: InstantView, end: InstantView) -> bool {
        self.start_time.at_or_before(end) && start.at_or_before(self.end_time)
    }

    /// The booking as the store keeps it: both times cut to whole seconds.
    pub open spec fn stored(self) -> BookingView {
        BookingView {
            start_time: self.start_time.whole_second(),
            end_time: self.end_time.whole_second(),
            ..self
        }
    }
}

/// A single booking for a room. All times are UTC.
#[derive(Debug, Clone)]
pub struct Booking {
    /// The remote system's id of the booked resource, by which bookings are
    /// matched to configured rooms.
    pub resource_id: i64,
    /// The remote system's id of the booking itself: the key under which it
    /// is stored and reconciled.
    pub booking_id: i64,
    /// Descriptive text.
    pub title: String,
    pub start_time: Instant,
    pub end_time: Instant,
}

impl View for Booking {
    type V = BookingView;

    open spec fn view(&self) -> BookingView {
        BookingView {
            resource_id: self.resource_id as int,
            booking_id: self.booking_id as int,
            title: self.title@,
            start_time: self.start_time@,
            end_time: self.end_time@,
        }
    }
}

impl PartialEq for Booking {
    fn eq(&self, other: &Booking) -> (r: bool) {
        proof {
            if self.start_time@ == other.start_time@ {
                Instant::lemma_view_injective(self.start_time, other.start_time);
            }
            if self.end_time@ == other.end_time@ {
                Instant::lemma_view_injective(self.end_time, other.end_time);
            }
        }
        self.resource_id == other.resource_id && self.booking_id == other.booking_id
            && self.title == other.title && self.start_time == other.start_time && self.end_time
            == other.end_time
    }
}

impl vstd::std_specs::cmp::PartialEqSpecImpl for Booking {
    open spec fn obeys_eq_spec() -> bool {
        true
    }

    open spec fn eq_spec(&self, other: &Booking) -> bool {
        self@ == other@
    }
}

impl Booking {
    /// A copy of `self`.
    pub fn duplicate(&self) -> (r: Booking)
        ensures
            r@ == self@,
            r == *self,
    {
        Booking {
            resource_id: self.resource_id,
            booking_id: self.booking_id,
            title: self.title.clone(),
            start_time: self.start_time,
            end_time: self.end_time,
        }
    }

    /// Whether the booking's interval meets the closed window from `start`
    /// to `end`.
    pub fn intersects(&self, start: &Instant, end: &Instant) -> (b: bool)
        ensures
            b == self@.intersects(start@, end@),
    {
        self.start_time.is_at_or_before(end) && start.is_at_or_before(&self.end_time)
    }
}

/// The values of a sequence of bookings, in order.
pub open spec fn views(s: Seq<Booking>) -> Seq<BookingView> {
    s.map_values(|b: Booking| b@)
}

} // verus!
