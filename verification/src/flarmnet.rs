//! The FlarmNet source: mid-trust, with identity and location fields.
//!
//! Its HTTP fetch and the line-level decoding of the legacy file format
//! live outside the library. The decoder yields one outcome per line;
//! lines that failed to decode are handed in as `None` and dropped
//! here, keeping the records that decoded.

use vstd::prelude::*;
use crate::record::{File, Record};

verus! {

/// A decoded FlarmNet file: the format's version counter and one
/// decode outcome per record line (`None` for a line that failed to
/// decode).
pub struct DecodedFile {
    pub version: u32,
    pub records: Vec<Option<Record>>,
}

/// The records of the lines that decoded, in order.
pub open spec fn spec_decoded_records(s: Seq<Option<Record>>) -> Seq<Record> {
    s.filter(|o: Option<Record>| o is Some).map_values(|o: Option<Record>| o->0)
}

/// Keep the records of the lines that decoded.
pub fn to_file(decoded: DecodedFile) -> (r: File)
    ensures
        r.version == decoded.version,
        r.records@ == spec_decoded_records(decoded.records@),
{
    let ghost orig = decoded.records@;
    let mut rest = decoded.records;
    let mut records: Vec<Record> = Vec::new();
    let mut i: usize = 0;
    let n = rest.len();
    proof {
        reveal(Seq::filter);
        assert(orig.skip(0) == orig);
        assert(spec_decoded_records(orig.take(0)) =~= Seq::<Record>::empty());
    }
    while rest.len() > 0
        invariant
            i <= orig.len(),
            orig.len() <= usize::MAX,
            rest@ == orig.skip(i as int),
            records@ == spec_decoded_records(orig.take(i as int)),
        decreases rest@.len(),
    {
        proof {
            reveal(Seq::filter);
            assert(orig.take(i + 1).drop_last() == orig.take(i as int));
            assert(orig.skip(i as int).remove(0) =~= orig.skip(i + 1));
            assert(spec_decoded_records(orig.take(i + 1)) =~= (
                if orig[i as int] is Some {
                    spec_decoded_records(orig.take(i as int)).push(orig[i as int]->0)
                } else {
                    spec_decoded_records(orig.take(i as int))
                }
            ));
        }
        let o = rest.remove(0);
        match o {
            Option::Some(record) => records.push(record),
            Option::None => (),
        }
        i = i + 1;
    }
    proof {
        assert(orig.take(i as int) == orig);
    }
    File { version: decoded.version, records }
}

} // verus!
