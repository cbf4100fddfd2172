//! The canonical record: one aircraft-identification entry.
//!
//! Every field is text; an empty string means "no information". That
//! convention is load-bearing: all merge rules are phrased in terms of
//! "field is empty", and absence is never a distinct marker.

use vstd::prelude::*;

verus! {

/// One canonical record, keyed by its identification code (a hex
/// string, case-insensitive).
#[derive(Debug, Clone, PartialEq, Eq)]
pub struct Record {
    pub flarm_id: String,
    pub pilot_name: String,
    pub airfield: String,
    pub plane_type: String,
    pub registration: String,
    pub call_sign: String,
    pub frequency: String,
}

/// The mathematical shape of a record: each field as a sequence of
/// characters.
pub struct RecordView {
    pub flarm_id: Seq<char>,
    pub pilot_name: Seq<char>,
    pub airfield: Seq<char>,
    pub plane_type: Seq<char>,
    pub registration: Seq<char>,
    pub call_sign: Seq<char>,
    pub frequency: Seq<char>,
}

impl View for Record {
    type V = RecordView;

    open spec fn view(&self) -> RecordView {
        RecordView {
            flarm_id: self.flarm_id@,
            pilot_name: self.pilot_name@,
            airfield: self.airfield@,
            plane_type: self.plane_type@,
            registration: self.registration@,
            call_sign: self.call_sign@,
            frequency: self.frequency@,
        }
    }
}

/// View of an optional record.
pub open spec fn opt_view(o: Option<Record>) -> Option<RecordView> {
    match o {
        Option::None => Option::None,
        Option::Some(r) => Option::Some(r@),
    }
}

/// Views of a list of records.
pub open spec fn views_of(s: Seq<Record>) -> Seq<RecordView> {
    s.map_values(|r: Record| r@)
}

impl Record {
    /// A field-by-field copy; the copy's view equals the original's.
    pub fn duplicate(&self) -> (r: Record)
        ensures
            r@ == self@,
    {
        Record {
            flarm_id: self.flarm_id.clone(),
            pilot_name: self.pilot_name.clone(),
            airfield: self.airfield.clone(),
            plane_type: self.plane_type.clone(),
            registration: self.registration.clone(),
            call_sign: self.call_sign.clone(),
            frequency: self.frequency.clone(),
        }
    }
}

/// A whole dataset in one downstream shape: the file format's version
/// counter and its records.
#[derive(Debug, Clone, PartialEq, Eq)]
pub struct File {
    pub version: u32,
    pub records: Vec<Record>,
}

} // verus!
