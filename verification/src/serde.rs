//! The shape of a record in the plain JSON output, and the filter that
//! decides which records are worth emitting there.
//!
//! The encoding itself is a boundary concern and lives outside the
//! library; this module fixes exactly which records reach it and with
//! which field values.

use vstd::prelude::*;
use crate::record::{views_of, Record, RecordView};
use crate::sanitize::{has_data, spec_emittable};

verus! {

/// A record as it goes to the JSON output.
#[derive(Debug, Clone, PartialEq, Eq)]
pub struct SerializableRecord {
    pub flarm_id: String,
    pub pilot_name: String,
    pub airfield: String,
    pub plane_type: String,
    pub registration: String,
    pub call_sign: String,
    pub frequency: String,
}

impl View for SerializableRecord {
    type V = RecordView;

    open spec fn view(&self) -> RecordView {
        RecordView {
            flarm_id: self.flarm_id@,
            pilot_name: self.pilot_name@,
            airfield: self.airfield@,
            plane_type: self.plane_type@,
            registration: self.registration@,
            call_sign: self.call_sign@,
            frequency: self.frequency@,
        }
    }
}

/// The JSON output for one record: the record itself, or `None`
/// exactly when its identification code is empty or all other fields
/// are empty.
pub open spec fn spec_from_record(r: RecordView) -> Option<RecordView> {
    if spec_emittable(r) {
        Option::Some(r)
    } else {
        Option::None
    }
}

impl SerializableRecord {
    /// Take a record into the JSON output, or drop it when it carries
    /// no information.
    pub fn from_record(record: &Record) -> (r: Option<SerializableRecord>)
        ensures
            r is Some <==> spec_from_record(record@) is Some,
            r is Some ==> r->0@ == record@,
    {
        if record.flarm_id.as_str().is_empty() {
            return Option::None;
        }
        if !has_data(record) {
            return Option::None;
        }
        Option::Some(
            SerializableRecord {
                flarm_id: record.flarm_id.clone(),
                pilot_name: record.pilot_name.clone(),
                airfield: record.airfield.clone(),
                plane_type: record.plane_type.clone(),
                registration: record.registration.clone(),
                call_sign: record.call_sign.clone(),
                frequency: record.frequency.clone(),
            },
        )
    }
}

/// The JSON output set of a dataset: the records worth emitting, in
/// order, unchanged.
pub open spec fn spec_json_dataset(s: Seq<RecordView>) -> Seq<RecordView>
    decreases s.len(),
{
    if s.len() == 0 {
        Seq::empty()
    } else {
        let rest = spec_json_dataset(s.drop_last());
        match spec_from_record(s.last()) {
            Option::None => rest,
            Option::Some(r) => rest.push(r),
        }
    }
}

/// Take a whole dataset into the JSON output: the records worth
/// emitting, in order.
pub fn json_dataset(records: &Vec<Record>) -> (r: Vec<SerializableRecord>)
    ensures
        serializable_views(r@) == spec_json_dataset(views_of(records@)),
{
    let n = records.len();
    let mut out: Vec<SerializableRecord> = Vec::new();
    let mut i: usize = 0;
    proof {
        assert(spec_json_dataset(views_of(records@).take(0)) =~= Seq::<RecordView>::empty());
        assert(serializable_views(out@) =~= Seq::<RecordView>::empty());
    }
    while i < n
        invariant
            i <= n,
            n == records@.len(),
            serializable_views(out@) == spec_json_dataset(views_of(records@).take(i as int)),
        decreases n - i,
    {
        proof {
            assert(views_of(records@).take(i + 1).drop_last() =~= views_of(records@).take(
                i as int,
            ));
            assert(views_of(records@).take(i + 1).last() == records@[i as int]@);
        }
        match SerializableRecord::from_record(&records[i]) {
            Option::Some(s) => out.push(s),
            Option::None => (),
        }
        i = i + 1;
    }
    proof {
        assert(views_of(records@).take(n as int) == views_of(records@));
    }
    out
}

/// Views of a list of JSON-output records.
pub open spec fn serializable_views(s: Seq<SerializableRecord>) -> Seq<RecordView> {
    s.map_values(|r: SerializableRecord| r@)
}

/// The JSON output set holds exactly the records worth emitting,
/// unchanged: every record in it has a non-empty identification code
/// and at least one non-empty other field.
pub proof fn lemma_json_set_worth_emitting(s: Seq<RecordView>)
    ensures
        forall|p: int|
            0 <= p < spec_json_dataset(s).len() ==> spec_emittable(
                #[trigger] spec_json_dataset(s)[p],
            ),
    decreases s.len(),
{
    if s.len() > 0 {
        lemma_json_set_worth_emitting(s.drop_last());
        let rest = spec_json_dataset(s.drop_last());
        let res = spec_json_dataset(s);
        match spec_from_record(s.last()) {
            Option::None => {
                assert(res == rest);
            },
            Option::Some(r) => {
                assert(res == rest.push(r));
                assert(forall|p: int| 0 <= p < rest.len() ==> #[trigger] res[p] == rest[p]);
                assert(res[res.len() - 1] == r);
            },
        }
    }
}

} // verus!
