//! Text sanitization for the two downstream character sets.
//!
//! The broad variant first writes out the canonical German diacritic
//! transliterations explicitly, then falls back to a general
//! Unicode-to-ASCII transliteration for everything else. The narrow
//! variant passes text through verbatim when it already fits the
//! narrow (Latin-1) set, and otherwise sanitizes like the broad one.
//! A record is dropped from the output when its identification code is
//! empty or when all of its other fields are empty.

use vstd::prelude::*;
use crate::record::{opt_view, views_of, Record, RecordView};
use crate::text::{ascii_below_del, ascii_text, latin1_text, push_char};

verus! {

/// What one character contributes under the German transliteration:
/// the seven diacritics expand to their two-letter forms, every other
/// character stays.
pub open spec fn expand_char(c: char) -> Seq<char> {
    if c == '\u{e4}' {  // a-umlaut
        seq!['a', 'e']
    } else if c == '\u{f6}' {  // o-umlaut
        seq!['o', 'e']
    } else if c == '\u{fc}' {  // u-umlaut
        seq!['u', 'e']
    } else if c == '\u{c4}' {  // A-umlaut
        seq!['A', 'e']
    } else if c == '\u{d6}' {  // O-umlaut
        seq!['O', 'e']
    } else if c == '\u{dc}' {  // U-umlaut
        seq!['U', 'e']
    } else if c == '\u{df}' {  // sharp s
        seq!['s', 's']
    } else {
        seq![c]
    }
}

/// The text with the German transliterations written out.
pub open spec fn expand_german(s: Seq<char>) -> Seq<char>
    decreases s.len(),
{
    if s.len() == 0 {
        Seq::empty()
    } else {
        expand_german(s.drop_last()) + expand_char(s.last())
    }
}

/// The German transliteration leaves ASCII text as it is.
pub proof fn lemma_expand_german_ascii(s: Seq<char>)
    requires
        ascii_text(s),
    ensures
        expand_german(s) == s,
    decreases s.len(),
{
    if s.len() == 0 {
        assert(expand_german(s) =~= s);
    } else {
        assert(ascii_text(s.drop_last()));
        lemma_expand_german_ascii(s.drop_last());
        assert(s[s.len() - 1] <= '\u{7f}');
        assert(expand_char(s.last()) =~= seq![s.last()]);
        assert(expand_german(s) =~= s.drop_last().push(s.last()));
        assert(s.drop_last().push(s.last()) =~= s);
    }
}

/// What the general Unicode-to-ASCII transliteration returns; it
/// depends on the characters alone.
pub uninterp spec fn deunicode_of(s: Seq<char>) -> Seq<char>;

/// Relies on deunicode::deunicode: a transliteration of arbitrary
/// Unicode text into ASCII. Its mapping data emits only characters
/// strictly below U+007F, and its fast path returns the text unchanged
/// when every character is strictly below U+007F. Identity cannot be
/// claimed of all ASCII text: the DEL character U+007F itself maps to
/// the empty string.
#[verifier::external_body]
fn deunicode_text(s: &str) -> (r: String)
    ensures
        r@ == deunicode_of(s@),
        ascii_below_del(r@),
        ascii_below_del(s@) ==> r@ == s@,
{
    deunicode::deunicode(s)
}

/// Relies on encoding_rs::mem::is_str_latin1: whether the text holds
/// only code points at or below U+00FF.
#[verifier::external_body]
fn text_is_latin1(s: &str) -> (r: bool)
    ensures
        r == latin1_text(s@),
{
    encoding_rs::mem::is_str_latin1(s)
}

/// The sanitized form of a text: the German transliterations written
/// out, then everything else transliterated to ASCII. Text strictly
/// below the DEL character comes through unchanged.
pub open spec fn spec_sanitize(s: Seq<char>) -> Seq<char> {
    if ascii_below_del(s) {
        s
    } else {
        deunicode_of(expand_german(s))
    }
}

/// The sanitized form for the narrow target: text already in the
/// narrow set is kept verbatim.
pub open spec fn spec_sanitize_xcsoar(s: Seq<char>) -> Seq<char> {
    if latin1_text(s) {
        s
    } else {
        spec_sanitize(s)
    }
}

/// Write out the German transliterations of the text.
fn expand_german_text(s: &str) -> (r: String)
    ensures
        r@ == expand_german(s@),
{
    let n = s.unicode_len();
    let mut out = String::new();
    let mut i: usize = 0;
    proof {
        assert(expand_german(s@.take(0)) =~= Seq::<char>::empty());
    }
    while i < n
        invariant
            i <= n,
            n == s@.len(),
            out@ == expand_german(s@.take(i as int)),
        decreases n - i,
    {
        proof {
            assert(s@.take(i + 1).drop_last() == s@.take(i as int));
            assert(s@.take(i + 1).last() == s@[i as int]);
            reveal_strlit("ae");
            reveal_strlit("oe");
            reveal_strlit("ue");
            reveal_strlit("Ae");
            reveal_strlit("Oe");
            reveal_strlit("Ue");
            reveal_strlit("ss");
        }
        let c = s.get_char(i);
        if c == '\u{e4}' {
            out.append("ae");
            proof {
                assert("ae"@ =~= expand_char(c));
            }
        } else if c == '\u{f6}' {
            out.append("oe");
            proof {
                assert("oe"@ =~= expand_char(c));
            }
        } else if c == '\u{fc}' {
            out.append("ue");
            proof {
                assert("ue"@ =~= expand_char(c));
            }
        } else if c == '\u{c4}' {
            out.append("Ae");
            proof {
                assert("Ae"@ =~= expand_char(c));
            }
        } else if c == '\u{d6}' {
            out.append("Oe");
            proof {
                assert("Oe"@ =~= expand_char(c));
            }
        } else if c == '\u{dc}' {
            out.append("Ue");
            proof {
                assert("Ue"@ =~= expand_char(c));
            }
        } else if c == '\u{df}' {
            out.append("ss");
            proof {
                assert("ss"@ =~= expand_char(c));
            }
        } else {
            push_char(&mut out, c);
            proof {
                assert(out@ =~= expand_german(s@.take(i as int)) + expand_char(s@[i as int]));
            }
        }
        i = i + 1;
    }
    proof {
        assert(s@.take(n as int) == s@);
    }
    out
}

/// Sanitize one text for the broad target. The result holds only
/// characters strictly below the DEL character, so sanitizing it again
/// returns it unchanged.
fn sanitize(value: &str) -> (r: String)
    ensures
        r@ == spec_sanitize(value@),
        ascii_below_del(r@),
{
    let expanded = expand_german_text(value);
    let r = deunicode_text(expanded.as_str());
    proof {
        if ascii_below_del(value@) {
            lemma_expand_german_ascii(value@);
        }
    }
    r
}

/// Sanitize one text for the broad (LX) target. The result holds only
/// characters strictly below the DEL character, so sanitizing it again
/// returns it unchanged.
pub fn sanitize_for_lx(value: &str) -> (r: String)
    ensures
        r@ == spec_sanitize(value@),
        ascii_below_del(r@),
{
    sanitize(value)
}

/// Sanitize one text for the narrow (XCSoar) target: text already in
/// the narrow set is returned byte for byte unchanged.
pub fn sanitize_for_xcsoar(value: &str) -> (r: String)
    ensures
        r@ == spec_sanitize_xcsoar(value@),
{
    if text_is_latin1(value) {
        value.to_owned()
    } else {
        sanitize(value)
    }
}

/// Whether a record carries any information beyond its identification
/// code.
pub open spec fn spec_has_data(r: RecordView) -> bool {
    !(r.pilot_name.len() == 0 && r.airfield.len() == 0 && r.plane_type.len() == 0
        && r.registration.len() == 0 && r.call_sign.len() == 0 && r.frequency.len() == 0)
}

/// Whether a record carries any information beyond its identification
/// code.
pub fn has_data(record: &Record) -> (r: bool)
    ensures
        r == spec_has_data(record@),
{
    !(record.pilot_name.as_str().is_empty() && record.airfield.as_str().is_empty()
        && record.plane_type.as_str().is_empty() && record.registration.as_str().is_empty()
        && record.call_sign.as_str().is_empty() && record.frequency.as_str().is_empty())
}

/// A record sanitized field by field for the broad target.
pub open spec fn spec_sanitize_fields(r: RecordView) -> RecordView {
    RecordView {
        flarm_id: spec_sanitize(r.flarm_id),
        pilot_name: spec_sanitize(r.pilot_name),
        airfield: spec_sanitize(r.airfield),
        plane_type: spec_sanitize(r.plane_type),
        registration: spec_sanitize(r.registration),
        call_sign: spec_sanitize(r.call_sign),
        frequency: spec_sanitize(r.frequency),
    }
}

/// A record sanitized field by field for the narrow target.
pub open spec fn spec_sanitize_fields_xcsoar(r: RecordView) -> RecordView {
    RecordView {
        flarm_id: spec_sanitize_xcsoar(r.flarm_id),
        pilot_name: spec_sanitize_xcsoar(r.pilot_name),
        airfield: spec_sanitize_xcsoar(r.airfield),
        plane_type: spec_sanitize_xcsoar(r.plane_type),
        registration: spec_sanitize_xcsoar(r.registration),
        call_sign: spec_sanitize_xcsoar(r.call_sign),
        frequency: spec_sanitize_xcsoar(r.frequency),
    }
}

/// Whether a record is worth emitting: its identification code is
/// non-empty and it carries some information.
pub open spec fn spec_emittable(r: RecordView) -> bool {
    r.flarm_id.len() > 0 && spec_has_data(r)
}

/// The broad-target output for one record: `None` exactly when the
/// record is not worth emitting.
pub open spec fn spec_sanitize_record_for_lx(r: RecordView) -> Option<RecordView> {
    if spec_emittable(r) {
        Option::Some(spec_sanitize_fields(r))
    } else {
        Option::None
    }
}

/// The narrow-target output for one record: `None` exactly when the
/// record is not worth emitting.
pub open spec fn spec_sanitize_record_for_xcsoar(r: RecordView) -> Option<RecordView> {
    if spec_emittable(r) {
        Option::Some(spec_sanitize_fields_xcsoar(r))
    } else {
        Option::None
    }
}

/// Sanitize a record for the broad target, or drop it when it is not
/// worth emitting.
pub fn sanitize_record_for_lx(record: &Record) -> (r: Option<Record>)
    ensures
        opt_view(r) == spec_sanitize_record_for_lx(record@),
{
    if record.flarm_id.as_str().is_empty() || !has_data(record) {
        return Option::None;
    }
    Option::Some(
        Record {
            flarm_id: sanitize_for_lx(record.flarm_id.as_str()),
            pilot_name: sanitize_for_lx(record.pilot_name.as_str()),
            airfield: sanitize_for_lx(record.airfield.as_str()),
            plane_type: sanitize_for_lx(record.plane_type.as_str()),
            registration: sanitize_for_lx(record.registration.as_str()),
            call_sign: sanitize_for_lx(record.call_sign.as_str()),
            frequency: sanitize_for_lx(record.frequency.as_str()),
        },
    )
}

/// Sanitize a record for the narrow target, or drop it when it is not
/// worth emitting.
pub fn sanitize_record_for_xcsoar(record: &Record) -> (r: Option<Record>)
    ensures
        opt_view(r) == spec_sanitize_record_for_xcsoar(record@),
{
    if record.flarm_id.as_str().is_empty() || !has_data(record) {
        return Option::None;
    }
    Option::Some(
        Record {
            flarm_id: sanitize_for_xcsoar(record.flarm_id.as_str()),
            pilot_name: sanitize_for_xcsoar(record.pilot_name.as_str()),
            airfield: sanitize_for_xcsoar(record.airfield.as_str()),
            plane_type: sanitize_for_xcsoar(record.plane_type.as_str()),
            registration: sanitize_for_xcsoar(record.registration.as_str()),
            call_sign: sanitize_for_xcsoar(record.call_sign.as_str()),
            frequency: sanitize_for_xcsoar(record.frequency.as_str()),
        },
    )
}

/// The broad-target output set of a dataset: each record sanitized,
/// the ones not worth emitting dropped, order kept.
pub open spec fn spec_sanitize_dataset_for_lx(s: Seq<RecordView>) -> Seq<RecordView>
    decreases s.len(),
{
    if s.len() == 0 {
        Seq::empty()
    } else {
        let rest = spec_sanitize_dataset_for_lx(s.drop_last());
        match spec_sanitize_record_for_lx(s.last()) {
            Option::None => rest,
            Option::Some(r) => rest.push(r),
        }
    }
}

/// The narrow-target output set of a dataset.
pub open spec fn spec_sanitize_dataset_for_xcsoar(s: Seq<RecordView>) -> Seq<RecordView>
    decreases s.len(),
{
    if s.len() == 0 {
        Seq::empty()
    } else {
        let rest = spec_sanitize_dataset_for_xcsoar(s.drop_last());
        match spec_sanitize_record_for_xcsoar(s.last()) {
            Option::None => rest,
            Option::Some(r) => rest.push(r),
        }
    }
}

/// Sanitize a whole dataset for the broad target: the records worth
/// emitting, sanitized, in order.
pub fn sanitize_dataset_for_lx(records: &Vec<Record>) -> (r: Vec<Record>)
    ensures
        views_of(r@) == spec_sanitize_dataset_for_lx(views_of(records@)),
{
    let n = records.len();
    let mut out: Vec<Record> = Vec::new();
    let mut i: usize = 0;
    proof {
        assert(spec_sanitize_dataset_for_lx(views_of(records@).take(0)) =~= Seq::<
            RecordView,
        >::empty());
        assert(views_of(out@) =~= Seq::<RecordView>::empty());
    }
    while i < n
        invariant
            i <= n,
            n == records@.len(),
            views_of(out@) == spec_sanitize_dataset_for_lx(views_of(records@).take(i as int)),
        decreases n - i,
    {
        proof {
            assert(views_of(records@).take(i + 1).drop_last() =~= views_of(records@).take(
                i as int,
            ));
            assert(views_of(records@).take(i + 1).last() == records@[i as int]@);
        }
        match sanitize_record_for_lx(&records[i]) {
            Option::Some(s) => out.push(s),
            Option::None => (),
        }
        i = i + 1;
    }
    proof {
        assert(views_of(records@).take(n as int) == views_of(records@));
    }
    out
}

/// Sanitize a whole dataset for the narrow target.
pub fn sanitize_dataset_for_xcsoar(records: &Vec<Record>) -> (r: Vec<Record>)
    ensures
        views_of(r@) == spec_sanitize_dataset_for_xcsoar(views_of(records@)),
{
    let n = records.len();
    let mut out: Vec<Record> = Vec::new();
    let mut i: usize = 0;
    proof {
        assert(spec_sanitize_dataset_for_xcsoar(views_of(records@).take(0)) =~= Seq::<
            RecordView,
        >::empty());
        assert(views_of(out@) =~= Seq::<RecordView>::empty());
    }
    while i < n
        invariant
            i <= n,
            n == records@.len(),
            views_of(out@) == spec_sanitize_dataset_for_xcsoar(views_of(records@).take(i as int)),
        decreases n - i,
    {
        proof {
            assert(views_of(records@).take(i + 1).drop_last() =~= views_of(records@).take(
                i as int,
            ));
            assert(views_of(records@).take(i + 1).last() == records@[i as int]@);
        }
        match sanitize_record_for_xcsoar(&records[i]) {
            Option::Some(s) => out.push(s),
            Option::None => (),
        }
        i = i + 1;
    }
    proof {
        assert(views_of(records@).take(n as int) == views_of(records@));
    }
    out
}

/// In the broad-target output set no identification code is empty:
/// records with an empty code were dropped, and a code of text below
/// the DEL character (identification codes are hexadecimal) is kept as
/// it is.
pub proof fn lemma_lx_set_ids_nonempty(s: Seq<RecordView>)
    requires
        forall|i: int| 0 <= i < s.len() ==> ascii_below_del((#[trigger] s[i]).flarm_id),
    ensures
        forall|p: int|
            0 <= p < spec_sanitize_dataset_for_lx(s).len() ==> (#[trigger] spec_sanitize_dataset_for_lx(
                s,
            )[p]).flarm_id.len() > 0,
    decreases s.len(),
{
    if s.len() > 0 {
        let dl = s.drop_last();
        assert(forall|i: int| 0 <= i < dl.len() ==> #[trigger] dl[i] == s[i]);
        lemma_lx_set_ids_nonempty(dl);
        let rest = spec_sanitize_dataset_for_lx(dl);
        let res = spec_sanitize_dataset_for_lx(s);
        match spec_sanitize_record_for_lx(s.last()) {
            Option::None => {
                assert(res == rest);
            },
            Option::Some(r) => {
                assert(res == rest.push(r));
                assert(ascii_below_del(s.last().flarm_id)) by {
                    assert(s[s.len() - 1] == s.last());
                }
                lemma_output_id_nonempty(s.last());
                assert(forall|p: int| 0 <= p < rest.len() ==> #[trigger] res[p] == rest[p]);
                assert(res[res.len() - 1] == r);
            },
        }
    }
}

/// In the narrow-target output set no identification code is empty: a
/// code in the narrow set passes through verbatim.
pub proof fn lemma_xcsoar_set_ids_nonempty(s: Seq<RecordView>)
    requires
        forall|i: int| 0 <= i < s.len() ==> latin1_text((#[trigger] s[i]).flarm_id),
    ensures
        forall|p: int|
            0 <= p < spec_sanitize_dataset_for_xcsoar(s).len() ==> (
            #[trigger] spec_sanitize_dataset_for_xcsoar(s)[p]).flarm_id.len() > 0,
    decreases s.len(),
{
    if s.len() > 0 {
        let dl = s.drop_last();
        assert(forall|i: int| 0 <= i < dl.len() ==> #[trigger] dl[i] == s[i]);
        lemma_xcsoar_set_ids_nonempty(dl);
        let rest = spec_sanitize_dataset_for_xcsoar(dl);
        let res = spec_sanitize_dataset_for_xcsoar(s);
        match spec_sanitize_record_for_xcsoar(s.last()) {
            Option::None => {
                assert(res == rest);
            },
            Option::Some(r) => {
                assert(res == rest.push(r));
                assert(latin1_text(s.last().flarm_id)) by {
                    assert(s[s.len() - 1] == s.last());
                }
                assert(r.flarm_id == spec_sanitize_xcsoar(s.last().flarm_id));
                assert(forall|p: int| 0 <= p < rest.len() ==> #[trigger] res[p] == rest[p]);
                assert(res[res.len() - 1] == r);
            },
        }
    }
}

/// In the narrow-target output set every record still carries some
/// information: all-empty records were dropped, and for fields in the
/// narrow set the information that made the record worth emitting
/// survives.
pub proof fn lemma_xcsoar_set_has_data(s: Seq<RecordView>)
    requires
        forall|i: int|
            0 <= i < s.len() ==> latin1_text((#[trigger] s[i]).pilot_name) && latin1_text(
                s[i].airfield,
            ) && latin1_text(s[i].plane_type) && latin1_text(s[i].registration) && latin1_text(
                s[i].call_sign,
            ) && latin1_text(s[i].frequency),
    ensures
        forall|p: int|
            0 <= p < spec_sanitize_dataset_for_xcsoar(s).len() ==> spec_has_data(
                #[trigger] spec_sanitize_dataset_for_xcsoar(s)[p],
            ),
    decreases s.len(),
{
    if s.len() > 0 {
        let dl = s.drop_last();
        assert(forall|i: int| 0 <= i < dl.len() ==> #[trigger] dl[i] == s[i]);
        lemma_xcsoar_set_has_data(dl);
        let rest = spec_sanitize_dataset_for_xcsoar(dl);
        let res = spec_sanitize_dataset_for_xcsoar(s);
        match spec_sanitize_record_for_xcsoar(s.last()) {
            Option::None => {
                assert(res == rest);
            },
            Option::Some(r) => {
                assert(res == rest.push(r));
                assert(s[s.len() - 1] == s.last());
                assert(spec_has_data(r));
                assert(forall|p: int| 0 <= p < rest.len() ==> #[trigger] res[p] == rest[p]);
                assert(res[res.len() - 1] == r);
            },
        }
    }
}

/// In the broad-target output set every record still carries some
/// information: all-empty records were dropped, and for fields below
/// the DEL character the information that made the record worth
/// emitting survives.
pub proof fn lemma_lx_set_has_data(s: Seq<RecordView>)
    requires
        forall|i: int|
            0 <= i < s.len() ==> ascii_below_del((#[trigger] s[i]).pilot_name) && ascii_below_del(
                s[i].airfield,
            ) && ascii_below_del(s[i].plane_type) && ascii_below_del(s[i].registration)
                && ascii_below_del(s[i].call_sign) && ascii_below_del(s[i].frequency),
    ensures
        forall|p: int|
            0 <= p < spec_sanitize_dataset_for_lx(s).len() ==> spec_has_data(
                #[trigger] spec_sanitize_dataset_for_lx(s)[p],
            ),
    decreases s.len(),
{
    if s.len() > 0 {
        let dl = s.drop_last();
        assert(forall|i: int| 0 <= i < dl.len() ==> #[trigger] dl[i] == s[i]);
        lemma_lx_set_has_data(dl);
        let rest = spec_sanitize_dataset_for_lx(dl);
        let res = spec_sanitize_dataset_for_lx(s);
        match spec_sanitize_record_for_lx(s.last()) {
            Option::None => {
                assert(res == rest);
            },
            Option::Some(r) => {
                assert(res == rest.push(r));
                assert(s[s.len() - 1] == s.last());
                lemma_output_has_data(s.last());
                assert(forall|p: int| 0 <= p < rest.len() ==> #[trigger] res[p] == rest[p]);
                assert(res[res.len() - 1] == r);
            },
        }
    }
}

/// Sanitization never emits a record with an empty identification
/// code: records with an empty code are dropped, and a code of text
/// below the DEL character (identification codes are hexadecimal) is
/// kept as it is.
pub proof fn lemma_output_id_nonempty(r: RecordView)
    requires
        ascii_below_del(r.flarm_id),
    ensures
        spec_sanitize_record_for_lx(r) matches Option::Some(s) ==> s.flarm_id.len() > 0,
        spec_sanitize_record_for_xcsoar(r) matches Option::Some(s) ==> s.flarm_id.len() > 0,
{
    assert(latin1_text(r.flarm_id));
}

/// Sanitization never emits a record whose non-identity fields are all
/// empty: records without data are dropped, and for fields below the
/// DEL character the data that made the record worth emitting survives
/// sanitization.
pub proof fn lemma_output_has_data(r: RecordView)
    requires
        ascii_below_del(r.pilot_name),
        ascii_below_del(r.airfield),
        ascii_below_del(r.plane_type),
        ascii_below_del(r.registration),
        ascii_below_del(r.call_sign),
        ascii_below_del(r.frequency),
    ensures
        spec_sanitize_record_for_lx(r) matches Option::Some(s) ==> spec_has_data(s),
        spec_sanitize_record_for_xcsoar(r) matches Option::Some(s) ==> spec_has_data(s),
{
    assert(latin1_text(r.pilot_name));
    assert(latin1_text(r.airfield));
    assert(latin1_text(r.plane_type));
    assert(latin1_text(r.registration));
    assert(latin1_text(r.call_sign));
    assert(latin1_text(r.frequency));
}

} // verus!
