//! One flight leg, as decoded from the dataset.

use vstd::prelude::*;

verus! {

/// The mathematical value of a [`FlightRecord`].
pub struct FlightRecordView {
    pub carrier: Seq<char>,
    pub origin: Seq<char>,
    pub destination: Seq<char>,
    pub departure_delay: Option<i32>,
    pub arrival_delay: Option<i32>,
    pub cancelled: bool,
    pub distance: i32,
}

/// One flight leg. A delay that was not reported is `None`, never zero: the
/// record keeps "no delay" and "unknown delay" apart.
#[derive(Debug)]
pub struct FlightRecord {
    carrier: String,
    origin: String,
    destination: String,
    departure_delay: Option<i32>,
    arrival_delay: Option<i32>,
    cancelled: bool,
    distance: i32,
}

impl View for FlightRecord {
    type V = FlightRecordView;

    closed spec fn view(&self) -> FlightRecordView {
        FlightRecordView {
            carrier: self.carrier@,
            origin: self.origin@,
            destination: self.destination@,
            departure_delay: self.departure_delay,
            arrival_delay: self.arrival_delay,
            cancelled: self.cancelled,
            distance: self.distance,
        }
    }
}

impl Clone for FlightRecord {
    fn clone(&self) -> (r: FlightRecord)
        ensures
            r@ == self@,
    {
        FlightRecord {
            carrier: self.carrier.clone(),
            origin: self.origin.clone(),
            destination: self.destination.clone(),
            departure_delay: self.departure_delay,
            arrival_delay: self.arrival_delay,
            cancelled: self.cancelled,
            distance: self.distance,
        }
    }
}

impl FlightRecord {
    /// Builds a record from its seven fields.
    pub fn new(
        carrier: String,
        origin: String,
        destination: String,
        departure_delay: Option<i32>,
        arrival_delay: Option<i32>,
        cancelled: bool,
        distance: i32,
    ) -> (r: FlightRecord)
        ensures
            r@ == (FlightRecordView {
                carrier: carrier@,
                origin: origin@,
                destination: destination@,
                departure_delay,
                arrival_delay,
                cancelled,
                distance,
            }),
    {
        FlightRecord {
            carrier,
            origin,
            destination,
            departure_delay,
            arrival_delay,
            cancelled,
            distance,
        }
    }

    /// The carrier code.
    pub fn carrier(&self) -> (r: &str)
        ensures
            r@ == self@.carrier,
    {
        self.carrier.as_str()
    }

    /// The origin city, in the case the dataset gave it.
    pub fn origin(&self) -> (r: &str)
        ensures
            r@ == self@.origin,
    {
        self.origin.as_str()
    }

    /// The destination city, in the case the dataset gave it.
    pub fn destination(&self) -> (r: &str)
        ensures
            r@ == self@.destination,
    {
        self.destination.as_str()
    }

    /// Minutes late at departure; `None` where the dataset reported none.
    pub fn departure_delay(&self) -> (r: Option<i32>)
        ensures
            r == self@.departure_delay,
    {
        self.departure_delay
    }

    /// Minutes late at arrival; `None` where the dataset reported none.
    pub fn arrival_delay(&self) -> (r: Option<i32>)
        ensures
            r == self@.arrival_delay,
    {
        self.arrival_delay
    }

    /// Whether the leg was cancelled.
    pub fn cancelled(&self) -> (r: bool)
        ensures
            r == self@.cancelled,
    {
        self.cancelled
    }

    /// The distance flown.
    pub fn distance(&self) -> (r: i32)
        ensures
            r == self@.distance,
    {
        self.distance
    }
}

} // verus!
