//! The OGN device database source: the broadest, lowest-trust feed.
//!
//! Its HTTP fetch, the on-disk cache traffic and the JSON decoding live
//! outside the library; the decoded device entries are handed in as
//! plain values and converted here into canonical records.

use vstd::prelude::*;
use crate::record::{Record, RecordView};

verus! {

/// Seconds after which the cached device database counts as stale.
pub const OGN_DDB_CACHE_DURATION: u64 = 60 * 60;

/// One device entry of the device database.
#[derive(Debug, Clone, PartialEq, Eq)]
pub struct Device {
    pub device_id: String,
    pub aircraft_model: String,
    pub registration: String,
    pub cn: String,
}

/// The mathematical shape of a device entry.
pub struct DeviceView {
    pub device_id: Seq<char>,
    pub aircraft_model: Seq<char>,
    pub registration: Seq<char>,
    pub cn: Seq<char>,
}

impl View for Device {
    type V = DeviceView;

    open spec fn view(&self) -> DeviceView {
        DeviceView {
            device_id: self.device_id@,
            aircraft_model: self.aircraft_model@,
            registration: self.registration@,
            cn: self.cn@,
        }
    }
}

/// View of an optional device entry.
pub open spec fn opt_view(o: Option<Device>) -> Option<DeviceView> {
    match o {
        Option::None => Option::None,
        Option::Some(d) => Option::Some(d@),
    }
}

impl DeviceView {
    /// The canonical record a device entry contributes: identification
    /// code, plane type, registration and call sign; everything else
    /// stays unknown.
    pub open spec fn spec_record(self) -> RecordView {
        RecordView {
            flarm_id: self.device_id,
            pilot_name: Seq::empty(),
            airfield: Seq::empty(),
            plane_type: self.aircraft_model,
            registration: self.registration,
            call_sign: self.cn,
            frequency: Seq::empty(),
        }
    }
}

impl Device {
    /// A field-by-field copy; the copy's view equals the original's.
    pub fn duplicate(&self) -> (r: Device)
        ensures
            r@ == self@,
    {
        Device {
            device_id: self.device_id.clone(),
            aircraft_model: self.aircraft_model.clone(),
            registration: self.registration.clone(),
            cn: self.cn.clone(),
        }
    }

    /// Convert a device entry into a canonical record.
    pub fn into_flarmnet_record(self) -> (r: Record)
        ensures
            r@ == self@.spec_record(),
    {
        Record {
            flarm_id: self.device_id,
            pilot_name: String::new(),
            airfield: String::new(),
            plane_type: self.aircraft_model,
            registration: self.registration,
            call_sign: self.cn,
            frequency: String::new(),
        }
    }
}

} // verus!
