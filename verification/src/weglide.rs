//! The WeGlide device source: the richest per-person metadata.
//!
//! Its paginated HTTP fetch lives outside the library; this module
//! holds the pure parts: the device shape with its validity window (a
//! plain unix timestamp), the staleness filter, the conversion into a
//! canonical record, and the pagination bookkeeping that decides when
//! the fetch loop stops.

use vstd::prelude::*;
use crate::record::{Record, RecordView};

verus! {

/// An aircraft model referenced by a device entry.
#[derive(Debug, Clone, PartialEq, Eq)]
pub struct AircraftRef {
    pub id: u32,
    pub name: String,
}

/// The user a device belongs to.
#[derive(Debug, Clone, PartialEq, Eq)]
pub struct UserRef {
    pub id: u32,
    pub name: String,
}

/// One device entry. `until` is the end of the entry's validity window
/// as a unix timestamp in seconds; `None` means the entry never expires.
#[derive(Debug, Clone, PartialEq, Eq)]
pub struct Device {
    pub id: String,
    pub name: Option<String>,
    pub competition_id: Option<String>,
    pub aircraft: Option<AircraftRef>,
    pub until: Option<i64>,
    pub user: UserRef,
}

/// The mathematical shape of a device entry.
pub struct DeviceView {
    pub id: Seq<char>,
    pub name: Option<Seq<char>>,
    pub competition_id: Option<Seq<char>>,
    pub aircraft_name: Option<Seq<char>>,
    pub until: Option<i64>,
    pub user_name: Seq<char>,
}

impl View for Device {
    type V = DeviceView;

    open spec fn view(&self) -> DeviceView {
        DeviceView {
            id: self.id@,
            name: match self.name {
                Option::None => Option::None,
                Option::Some(n) => Option::Some(n@),
            },
            competition_id: match self.competition_id {
                Option::None => Option::None,
                Option::Some(c) => Option::Some(c@),
            },
            aircraft_name: match self.aircraft {
                Option::None => Option::None,
                Option::Some(a) => Option::Some(a.name@),
            },
            until: self.until,
            user_name: self.user.name@,
        }
    }
}

/// View of an optional device entry.
pub open spec fn opt_view(o: Option<Device>) -> Option<DeviceView> {
    match o {
        Option::None => Option::None,
        Option::Some(d) => Option::Some(d@),
    }
}

impl DeviceView {
    /// Whether the validity window is still open at time `now`.
    pub open spec fn spec_is_current(self, now: i64) -> bool {
        match self.until {
            Option::None => true,
            Option::Some(u) => u >= now,
        }
    }

    /// The value an absent optional field contributes: empty text.
    pub open spec fn or_empty(o: Option<Seq<char>>) -> Seq<char> {
        match o {
            Option::None => Seq::empty(),
            Option::Some(s) => s,
        }
    }

    /// The canonical record a device entry contributes: identification
    /// code, pilot name, plane type, registration and call sign; the
    /// airfield and frequency stay unknown.
    pub open spec fn spec_record(self) -> RecordView {
        RecordView {
            flarm_id: self.id,
            pilot_name: self.user_name,
            airfield: Seq::empty(),
            plane_type: Self::or_empty(self.aircraft_name),
            registration: Self::or_empty(self.name),
            call_sign: Self::or_empty(self.competition_id),
            frequency: Seq::empty(),
        }
    }
}

impl Device {
    /// A field-by-field copy; the copy's view equals the original's.
    pub fn duplicate(&self) -> (r: Device)
        ensures
            r@ == self@,
    {
        Device {
            id: self.id.clone(),
            name: match &self.name {
                Option::None => Option::None,
                Option::Some(n) => Option::Some(n.clone()),
            },
            competition_id: match &self.competition_id {
                Option::None => Option::None,
                Option::Some(c) => Option::Some(c.clone()),
            },
            aircraft: match &self.aircraft {
                Option::None => Option::None,
                Option::Some(a) => Option::Some(AircraftRef { id: a.id, name: a.name.clone() }),
            },
            until: self.until,
            user: UserRef { id: self.user.id, name: self.user.name.clone() },
        }
    }

    /// Whether the entry's validity window is still open at time `now`
    /// (a unix timestamp in seconds). Entries without a window never
    /// expire.
    pub fn is_current(&self, now: i64) -> (r: bool)
        ensures
            r == self@.spec_is_current(now),
    {
        match &self.until {
            Option::None => true,
            Option::Some(u) => *u >= now,
        }
    }

    /// Convert a device entry into a canonical record.
    pub fn into_flarmnet_record(self) -> (r: Record)
        ensures
            r@ == self@.spec_record(),
    {
        Record {
            flarm_id: self.id,
            pilot_name: self.user.name,
            airfield: String::new(),
            plane_type: match self.aircraft {
                Option::None => String::new(),
                Option::Some(a) => a.name,
            },
            registration: match self.name {
                Option::None => String::new(),
                Option::Some(n) => n,
            },
            call_sign: match self.competition_id {
                Option::None => String::new(),
                Option::Some(c) => c,
            },
            frequency: String::new(),
        }
    }
}

/// Drop the device entries whose validity window has expired at time
/// `now`; the order of the remaining entries is kept.
pub fn filter_current(devices: Vec<Device>, now: i64) -> (r: Vec<Device>)
    ensures
        r@ == devices@.filter(|d: Device| d@.spec_is_current(now)),
{
    let ghost orig = devices@;
    let mut devices = devices;
    let mut out: Vec<Device> = Vec::new();
    let mut i: usize = 0;
    let n = devices.len();
    proof {
        assert(orig.len() == n);
        reveal(Seq::filter);
        assert(orig.skip(0) == orig);
        assert(orig.take(0).filter(|d: Device| d@.spec_is_current(now)) =~= Seq::<Device>::empty());
    }
    while devices.len() > 0
        invariant
            i <= orig.len(),
            orig.len() <= usize::MAX,
            devices@ == orig.skip(i as int),
            out@ == orig.take(i as int).filter(|d: Device| d@.spec_is_current(now)),
        decreases devices@.len(),
    {
        proof {
            assert(orig.take(i + 1).drop_last() == orig.take(i as int));
            assert(orig.skip(i as int).remove(0) =~= orig.skip(i + 1));
            reveal(Seq::filter);
        }
        let d = devices.remove(0);
        if d.is_current(now) {
            out.push(d);
        }
        i = i + 1;
    }
    proof {
        assert(orig.take(i as int) == orig);
    }
    out
}

/// Bookkeeping of one paginated fetch: the entries collected so far,
/// how many page requests were made, and whether a page has come back
/// empty (which ends the fetch).
pub struct DevicePager {
    pub collected: Vec<Device>,
    pub requests: u64,
    pub done: bool,
}

impl DevicePager {
    /// A fetch that has not requested any page yet.
    pub fn new() -> (r: DevicePager)
        ensures
            r.collected@ == Seq::<Device>::empty(),
            r.requests == 0,
            !r.done,
    {
        DevicePager { collected: Vec::new(), requests: 0, done: false }
    }

    /// Record one fetched page. The page's entries are appended in
    /// order; the fetch is over exactly when the page is empty. Returns
    /// whether another page must be requested.
    pub fn record_page(&mut self, page: Vec<Device>) -> (more: bool)
        requires
            !old(self).done,
            old(self).requests < u64::MAX,
        ensures
            final(self).requests == old(self).requests + 1,
            final(self).collected@ == old(self).collected@ + page@,
            final(self).done == (page@.len() == 0),
            more == !final(self).done,
    {
        self.requests = self.requests + 1;
        self.done = page.len() == 0;
        let mut page = page;
        self.collected.append(&mut page);
        !self.done
    }
}

} // verus!
