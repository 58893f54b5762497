//! The single record kind persisted in a cube.

use vstd::prelude::*;

use crate::clock::now_nanos;

verus! {

/// One record of the log: its id, the time it was made (nanoseconds since the
/// Unix epoch), its kind or path (`phenomenon`), and its body (`noumenon`).
#[derive(Debug)]
pub struct Event {
    pub id: u64,
    pub phenomenon: String,
    pub noumenon: String,
    pub timestamp: u128,
}

/// What an event holds, with its strings as character sequences.
pub struct EventModel {
    pub id: u64,
    pub timestamp: u128,
    pub phenomenon: Seq<char>,
    pub noumenon: Seq<char>,
}

impl View for Event {
    type V = EventModel;

    open spec fn view(&self) -> EventModel {
        EventModel {
            id: self.id,
            timestamp: self.timestamp,
            phenomenon: self.phenomenon@,
            noumenon: self.noumenon@,
        }
    }
}

impl Event {
    /// A new event stamped with the current time; the timestamp is zero when
    /// the system clock reads a time before the Unix epoch.
    pub fn new(id: u64, phenomenon: &str, noumenon: &str) -> (r: Self)
        ensures
            r.id == id,
            r.phenomenon@ == phenomenon@,
            r.noumenon@ == noumenon@,
    {
        let timestamp: u128 = match now_nanos() {
            Some(t) => t,
            None => 0,
        };
        Event { id, phenomenon: phenomenon.to_owned(), noumenon: noumenon.to_owned(), timestamp }
    }

    /// A copy of this event.
    pub fn duplicate(&self) -> (r: Self)
        ensures
            r@ == self@,
    {
        Event {
            id: self.id,
            phenomenon: self.phenomenon.clone(),
            noumenon: self.noumenon.clone(),
            timestamp: self.timestamp,
        }
    }

    pub fn get_id(&self) -> (r: u64)
        ensures
            r == self.id,
    {
        self.id
    }

    pub fn get_phenomenon(&self) -> (r: &str)
        ensures
            r@ == self.phenomenon@,
    {
        self.phenomenon.as_str()
    }

    pub fn get_noumenon(&self) -> (r: &str)
        ensures
            r@ == self.noumenon@,
    {
        self.noumenon.as_str()
    }

    /// Replaces the phenomenon, keeping every other field.
    pub fn set_phenomenon(&mut self, phenomenon: &str) -> (r: &mut Self)
        ensures
            r.phenomenon@ == phenomenon@,
            r.id == old(self).id,
            r.noumenon == old(self).noumenon,
            r.timestamp == old(self).timestamp,
            *final(self) == *final(r),
    {
        self.phenomenon = phenomenon.to_owned();
        self
    }

    /// Replaces the noumenon, keeping every other field.
    pub fn set_noumenon(&mut self, noumenon: &str) -> (r: &mut Self)
        ensures
            r.noumenon@ == noumenon@,
            r.id == old(self).id,
            r.phenomenon == old(self).phenomenon,
            r.timestamp == old(self).timestamp,
            *final(self) == *final(r),
    {
        self.noumenon = noumenon.to_owned();
        self
    }
}

} // verus!
