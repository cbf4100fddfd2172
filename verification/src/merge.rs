//! The merge engine: three source record lists become one dataset.
//!
//! The dataset is keyed by the case-folded identification code. It is
//! seeded from the device database (the broadest, lowest-trust source),
//! then the FlarmNet records are folded in, then the WeGlide devices.
//! A later source may overwrite the biographical fields (pilot name,
//! airfield, frequency) only when its call sign agrees with the
//! existing record — the identity-confirmation gate — and may fill
//! registration and plane type only when they are still empty, so a
//! populated registration or plane type is never downgraded. The rows
//! are then ordered by the numeric value of their identification code,
//! and an airfield that merely repeats the registration is cleared.

use vstd::prelude::*;
use crate::ogn;
use crate::record::{opt_view, views_of, Record, RecordView};
use crate::text::{hex_value, lower_text, to_lower, valid_hex_id, parse_hex_id};
use crate::weglide;

verus! {

/// Fold one FlarmNet record into the record that already stands at its
/// key. Behind the identity gate, FlarmNet's identity and location
/// fields always win; registration and plane type only fill gaps.
pub open spec fn spec_fold_flarmnet(existing: RecordView, incoming: RecordView) -> RecordView {
    if existing.call_sign == incoming.call_sign {
        RecordView {
            flarm_id: existing.flarm_id,
            pilot_name: incoming.pilot_name,
            airfield: incoming.airfield,
            plane_type: if existing.plane_type.len() == 0 {
                incoming.plane_type
            } else {
                existing.plane_type
            },
            registration: if existing.registration.len() == 0 {
                incoming.registration
            } else {
                existing.registration
            },
            call_sign: existing.call_sign,
            frequency: incoming.frequency,
        }
    } else {
        existing
    }
}

/// Fold one WeGlide device into the record that already stands at its
/// key. Behind the identity gate, WeGlide's pilot name always wins;
/// registration and plane type only fill gaps.
pub open spec fn spec_fold_weglide(existing: RecordView, device: weglide::DeviceView) -> RecordView {
    if existing.call_sign == weglide::DeviceView::or_empty(device.competition_id) {
        RecordView {
            flarm_id: existing.flarm_id,
            pilot_name: device.user_name,
            airfield: existing.airfield,
            plane_type: if existing.plane_type.len() == 0 {
                weglide::DeviceView::or_empty(device.aircraft_name)
            } else {
                existing.plane_type
            },
            registration: if existing.registration.len() == 0 {
                weglide::DeviceView::or_empty(device.name)
            } else {
                existing.registration
            },
            call_sign: existing.call_sign,
            frequency: existing.frequency,
        }
    } else {
        existing
    }
}

/// What one key's merged record is, given what each source holds at
/// that key: seed from the device database, fold in FlarmNet, fold in
/// WeGlide; a key held by no source yields nothing.
pub open spec fn spec_merge(
    f: Option<RecordView>,
    o: Option<ogn::DeviceView>,
    w: Option<weglide::DeviceView>,
) -> Option<RecordView> {
    let seeded = match (o, f) {
        (Option::None, Option::None) => Option::None,
        (Option::Some(od), Option::None) => Option::Some(od.spec_record()),
        (Option::None, Option::Some(fr)) => Option::Some(fr),
        (Option::Some(od), Option::Some(fr)) => Option::Some(
            spec_fold_flarmnet(od.spec_record(), fr),
        ),
    };
    match (seeded, w) {
        (Option::None, Option::None) => Option::None,
        (Option::Some(m), Option::None) => Option::Some(m),
        (Option::None, Option::Some(wd)) => Option::Some(wd.spec_record()),
        (Option::Some(m), Option::Some(wd)) => Option::Some(spec_fold_weglide(m, wd)),
    }
}

/// Merge what the three sources hold at one key.
pub fn merge(
    flarmnet_record: Option<Record>,
    ogn_device: Option<ogn::Device>,
    weglide_device: Option<weglide::Device>,
) -> (r: Option<Record>)
    ensures
        opt_view(r) == spec_merge(
            opt_view(flarmnet_record),
            ogn::opt_view(ogn_device),
            weglide::opt_view(weglide_device),
        ),
{
    let seeded: Option<Record> = match (ogn_device, flarmnet_record) {
        (Option::None, Option::None) => Option::None,
        (Option::Some(od), Option::None) => Option::Some(od.into_flarmnet_record()),
        (Option::None, Option::Some(fr)) => Option::Some(fr),
        (Option::Some(od), Option::Some(fr)) => {
            let mut merged = od.into_flarmnet_record();
            if merged.call_sign == fr.call_sign {
                merged.pilot_name = fr.pilot_name;
                merged.airfield = fr.airfield;
                merged.frequency = fr.frequency;
                if merged.registration.as_str().is_empty() {
                    merged.registration = fr.registration;
                }
                if merged.plane_type.as_str().is_empty() {
                    merged.plane_type = fr.plane_type;
                }
            }
            Option::Some(merged)
        },
    };
    match (seeded, weglide_device) {
        (Option::None, Option::None) => Option::None,
        (Option::Some(m), Option::None) => Option::Some(m),
        (Option::None, Option::Some(wd)) => Option::Some(wd.into_flarmnet_record()),
        (Option::Some(m), Option::Some(wd)) => {
            let mut merged = m;
            let competition_id: String = match wd.competition_id {
                Option::None => String::new(),
                Option::Some(c) => c,
            };
            if merged.call_sign == competition_id {
                merged.pilot_name = wd.user.name;
                if merged.registration.as_str().is_empty() {
                    merged.registration = match wd.name {
                        Option::None => String::new(),
                        Option::Some(n) => n,
                    };
                }
                if merged.plane_type.as_str().is_empty() {
                    merged.plane_type = match wd.aircraft {
                        Option::None => String::new(),
                        Option::Some(a) => a.name,
                    };
                }
            }
            Option::Some(merged)
        },
    }
}

/// A populated registration or plane type from the seeding source is
/// never overwritten by a later source, with or without an agreeing
/// call sign.
pub proof fn lemma_seed_precedence(
    f: Option<RecordView>,
    o: ogn::DeviceView,
    w: Option<weglide::DeviceView>,
)
    ensures
        spec_merge(f, Option::Some(o), w) matches Option::Some(m) && (o.registration.len() > 0
            ==> m.registration == o.registration) && (o.aircraft_model.len() > 0 ==> m.plane_type
            == o.aircraft_model),
{
}

/// The identity-confirmation gate: when the call signs disagree, none
/// of FlarmNet's fields reach the existing record; the result is
/// exactly the seeding source's record.
pub proof fn lemma_identity_gate(f: RecordView, o: ogn::DeviceView)
    requires
        f.call_sign != o.cn,
    ensures
        spec_merge(Option::Some(f), Option::Some(o), Option::None) == Option::Some(
            o.spec_record(),
        ),
{
}

/// The merge key of a canonical record.
pub open spec fn rec_key(r: RecordView) -> Seq<char> {
    lower_text(r.flarm_id)
}

/// The merge key of a device-database entry.
pub open spec fn ogn_key(d: ogn::DeviceView) -> Seq<char> {
    lower_text(d.device_id)
}

/// The merge key of a WeGlide device.
pub open spec fn weglide_key(d: weglide::DeviceView) -> Seq<char> {
    lower_text(d.id)
}

/// Views of a list of device-database entries.
pub open spec fn ogn_views(s: Seq<ogn::Device>) -> Seq<ogn::DeviceView> {
    s.map_values(|d: ogn::Device| d@)
}

/// Views of a list of WeGlide devices.
pub open spec fn weglide_views(s: Seq<weglide::Device>) -> Seq<weglide::DeviceView> {
    s.map_values(|d: weglide::Device| d@)
}

/// The keys of a FlarmNet record list, in order.
pub open spec fn f_keys(s: Seq<RecordView>) -> Seq<Seq<char>> {
    s.map_values(|r: RecordView| rec_key(r))
}

/// The keys of a device-database list, in order.
pub open spec fn o_keys(s: Seq<ogn::DeviceView>) -> Seq<Seq<char>> {
    s.map_values(|d: ogn::DeviceView| ogn_key(d))
}

/// The keys of a WeGlide device list, in order.
pub open spec fn w_keys(s: Seq<weglide::DeviceView>) -> Seq<Seq<char>> {
    s.map_values(|d: weglide::DeviceView| weglide_key(d))
}

/// One key added to the key list, unless it is already there.
pub open spec fn add_key(acc: Seq<Seq<char>>, k: Seq<char>) -> Seq<Seq<char>> {
    if acc.contains(k) {
        acc
    } else {
        acc.push(k)
    }
}

/// The keys of `ks` added to `acc`, in order of first appearance.
pub open spec fn keys_from(acc: Seq<Seq<char>>, ks: Seq<Seq<char>>) -> Seq<Seq<char>>
    decreases ks.len(),
{
    if ks.len() == 0 {
        acc
    } else {
        add_key(keys_from(acc, ks.drop_last()), ks.last())
    }
}

/// Every key held by any of the three sources, each exactly once, in
/// order of first appearance: FlarmNet's keys first, then the device
/// database's new keys, then WeGlide's.
pub open spec fn all_keys(
    f: Seq<RecordView>,
    o: Seq<ogn::DeviceView>,
    w: Seq<weglide::DeviceView>,
) -> Seq<Seq<char>> {
    keys_from(keys_from(keys_from(Seq::empty(), f_keys(f)), o_keys(o)), w_keys(w))
}

/// What a FlarmNet list holds at a key: its last record with that key,
/// as a map built by insertion would.
pub open spec fn find_last_flarmnet(s: Seq<RecordView>, k: Seq<char>) -> Option<RecordView>
    decreases s.len(),
{
    if s.len() == 0 {
        Option::None
    } else if rec_key(s.last()) == k {
        Option::Some(s.last())
    } else {
        find_last_flarmnet(s.drop_last(), k)
    }
}

/// What a device-database list holds at a key.
pub open spec fn find_last_ogn(s: Seq<ogn::DeviceView>, k: Seq<char>) -> Option<ogn::DeviceView>
    decreases s.len(),
{
    if s.len() == 0 {
        Option::None
    } else if ogn_key(s.last()) == k {
        Option::Some(s.last())
    } else {
        find_last_ogn(s.drop_last(), k)
    }
}

/// What a WeGlide device list holds at a key.
pub open spec fn find_last_weglide(
    s: Seq<weglide::DeviceView>,
    k: Seq<char>,
) -> Option<weglide::DeviceView>
    decreases s.len(),
{
    if s.len() == 0 {
        Option::None
    } else if weglide_key(s.last()) == k {
        Option::Some(s.last())
    } else {
        find_last_weglide(s.drop_last(), k)
    }
}

/// The merged record at one key.
pub open spec fn spec_merge_at(
    f: Seq<RecordView>,
    o: Seq<ogn::DeviceView>,
    w: Seq<weglide::DeviceView>,
    k: Seq<char>,
) -> Option<RecordView> {
    spec_merge(find_last_flarmnet(f, k), find_last_ogn(o, k), find_last_weglide(w, k))
}

/// The merged records of the given keys, in key order.
pub open spec fn merged_rows(
    keys: Seq<Seq<char>>,
    f: Seq<RecordView>,
    o: Seq<ogn::DeviceView>,
    w: Seq<weglide::DeviceView>,
) -> Seq<RecordView>
    decreases keys.len(),
{
    if keys.len() == 0 {
        Seq::empty()
    } else {
        let rest = merged_rows(keys.drop_last(), f, o, w);
        match spec_merge_at(f, o, w, keys.last()) {
            Option::None => rest,
            Option::Some(r) => rest.push(r),
        }
    }
}

/// The order of the dataset: the numeric value of the identification
/// code.
pub open spec fn row_key(r: RecordView) -> int {
    hex_value(r.flarm_id)
}

/// A record placed into a row list after every row whose key is at most
/// its own.
pub open spec fn insert_row(r: RecordView, s: Seq<RecordView>) -> Seq<RecordView>
    decreases s.len(),
{
    if s.len() == 0 {
        seq![r]
    } else if row_key(r) < row_key(s[0]) {
        seq![r] + s
    } else {
        seq![s[0]] + insert_row(r, s.drop_first())
    }
}

/// The rows ordered by key, stably.
pub open spec fn sort_rows(s: Seq<RecordView>) -> Seq<RecordView>
    decreases s.len(),
{
    if s.len() == 0 {
        Seq::empty()
    } else {
        insert_row(s.last(), sort_rows(s.drop_last()))
    }
}

/// An airfield that merely repeats the registration is cleared: it is
/// a symptom of an upstream source writing one field into both slots.
pub open spec fn collapse_row(r: RecordView) -> RecordView {
    if r.airfield == r.registration {
        RecordView {
            flarm_id: r.flarm_id,
            pilot_name: r.pilot_name,
            airfield: Seq::empty(),
            plane_type: r.plane_type,
            registration: r.registration,
            call_sign: r.call_sign,
            frequency: r.frequency,
        }
    } else {
        r
    }
}

/// The airfield collapse over the whole dataset.
pub open spec fn collapse_rows(s: Seq<RecordView>) -> Seq<RecordView> {
    s.map_values(|r: RecordView| collapse_row(r))
}

/// The whole merged dataset: one record per key of any source, merged
/// with the precedence rules, ordered by the numeric value of the
/// identification code, the airfield collapse applied.
pub open spec fn spec_merge_datasets(
    f: Seq<RecordView>,
    o: Seq<ogn::DeviceView>,
    w: Seq<weglide::DeviceView>,
) -> Seq<RecordView> {
    collapse_rows(sort_rows(merged_rows(all_keys(f, o, w), f, o, w)))
}

/// Whether every record of a FlarmNet list carries a well-formed
/// identification code.
pub open spec fn f_ids_valid(s: Seq<RecordView>) -> bool {
    forall|i: int| 0 <= i < s.len() ==> valid_hex_id(#[trigger] s[i].flarm_id)
}

/// Whether every device-database entry carries a well-formed
/// identification code.
pub open spec fn o_ids_valid(s: Seq<ogn::DeviceView>) -> bool {
    forall|i: int| 0 <= i < s.len() ==> valid_hex_id(#[trigger] s[i].device_id)
}

/// Whether every WeGlide device carries a well-formed identification
/// code.
pub open spec fn w_ids_valid(s: Seq<weglide::DeviceView>) -> bool {
    forall|i: int| 0 <= i < s.len() ==> valid_hex_id(#[trigger] s[i].id)
}

proof fn lemma_find_last_flarmnet_valid(s: Seq<RecordView>, k: Seq<char>)
    requires
        f_ids_valid(s),
    ensures
        find_last_flarmnet(s, k) matches Option::Some(r) ==> valid_hex_id(r.flarm_id),
    decreases s.len(),
{
    if s.len() > 0 && rec_key(s.last()) != k {
        assert(f_ids_valid(s.drop_last()));
        lemma_find_last_flarmnet_valid(s.drop_last(), k);
    }
}

proof fn lemma_find_last_ogn_valid(s: Seq<ogn::DeviceView>, k: Seq<char>)
    requires
        o_ids_valid(s),
    ensures
        find_last_ogn(s, k) matches Option::Some(d) ==> valid_hex_id(d.device_id),
    decreases s.len(),
{
    if s.len() > 0 && ogn_key(s.last()) != k {
        assert(o_ids_valid(s.drop_last()));
        lemma_find_last_ogn_valid(s.drop_last(), k);
    }
}

proof fn lemma_find_last_weglide_valid(s: Seq<weglide::DeviceView>, k: Seq<char>)
    requires
        w_ids_valid(s),
    ensures
        find_last_weglide(s, k) matches Option::Some(d) ==> valid_hex_id(d.id),
    decreases s.len(),
{
    if s.len() > 0 && weglide_key(s.last()) != k {
        assert(w_ids_valid(s.drop_last()));
        lemma_find_last_weglide_valid(s.drop_last(), k);
    }
}

/// The merged record at any key keeps the identification code of one
/// of the sources, so it is well-formed whenever the sources' are.
proof fn lemma_merge_at_valid(
    f: Seq<RecordView>,
    o: Seq<ogn::DeviceView>,
    w: Seq<weglide::DeviceView>,
    k: Seq<char>,
)
    requires
        f_ids_valid(f),
        o_ids_valid(o),
        w_ids_valid(w),
    ensures
        spec_merge_at(f, o, w, k) matches Option::Some(r) ==> valid_hex_id(r.flarm_id),
{
    lemma_find_last_flarmnet_valid(f, k);
    lemma_find_last_ogn_valid(o, k);
    lemma_find_last_weglide_valid(w, k);
}

/// Every merged row carries a well-formed identification code whenever
/// the sources' codes are well-formed.
proof fn lemma_merged_rows_valid(
    keys: Seq<Seq<char>>,
    f: Seq<RecordView>,
    o: Seq<ogn::DeviceView>,
    w: Seq<weglide::DeviceView>,
)
    requires
        f_ids_valid(f),
        o_ids_valid(o),
        w_ids_valid(w),
    ensures
        forall|i: int|
            0 <= i < merged_rows(keys, f, o, w).len() ==> valid_hex_id(
                #[trigger] merged_rows(keys, f, o, w)[i].flarm_id,
            ),
    decreases keys.len(),
{
    if keys.len() > 0 {
        lemma_merged_rows_valid(keys.drop_last(), f, o, w);
        lemma_merge_at_valid(f, o, w, keys.last());
        let rest = merged_rows(keys.drop_last(), f, o, w);
        let rows = merged_rows(keys, f, o, w);
        match spec_merge_at(f, o, w, keys.last()) {
            Option::None => {
                assert(rows == rest);
            },
            Option::Some(r) => {
                assert(rows == rest.push(r));
                assert(forall|i: int|
                    0 <= i < rest.len() ==> #[trigger] rows[i] == rest[i]);
                assert(rows[rows.len() - 1] == r);
            },
        }
    }
}

/// `insert_row` places the record exactly at the first position whose
/// key exceeds the record's own.
proof fn lemma_insert_row_at(r: RecordView, s: Seq<RecordView>, p: int)
    requires
        0 <= p <= s.len(),
        forall|j: int| 0 <= j < p ==> row_key(#[trigger] s[j]) <= row_key(r),
        p < s.len() ==> row_key(r) < row_key(s[p]),
    ensures
        insert_row(r, s) == s.take(p).push(r) + s.skip(p),
    decreases s.len(),
{
    if s.len() == 0 {
        assert(insert_row(r, s) =~= s.take(p).push(r) + s.skip(p));
    } else if p == 0 {
        assert(insert_row(r, s) =~= s.take(0).push(r) + s.skip(0));
    } else {
        assert(row_key(s[0]) <= row_key(r));
        let t = s.drop_first();
        assert(forall|j: int| 0 <= j < p - 1 ==> row_key(#[trigger] t[j]) <= row_key(r));
        lemma_insert_row_at(r, t, p - 1);
        assert(insert_row(r, s) == seq![s[0]] + insert_row(r, t));
        assert(seq![s[0]] + (t.take(p - 1).push(r) + t.skip(p - 1)) =~= s.take(p).push(r) + s.skip(
            p,
        ));
    }
}

/// Views of a list of keys.
pub open spec fn key_views(s: Seq<String>) -> Seq<Seq<char>> {
    s.map_values(|x: String| x@)
}

/// Add a key to the key list unless it is already there.
fn push_key(keys: &mut Vec<String>, k: String)
    ensures
        key_views(final(keys)@) == add_key(key_views(old(keys)@), k@),
{
    let n = keys.len();
    let mut i: usize = 0;
    while i < n
        invariant
            i <= n,
            n == keys@.len(),
            forall|j: int| 0 <= j < i ==> key_views(keys@)[j] != k@,
        decreases n - i,
    {
        if keys[i] == k {
            proof {
                assert(key_views(keys@)[i as int] == k@);
                assert(key_views(keys@).contains(k@));
            }
            return ;
        }
        i = i + 1;
    }
    proof {
        assert(!key_views(keys@).contains(k@));
        assert(key_views(keys@.push(k)) =~= key_views(keys@).push(k@));
    }
    keys.push(k);
}

/// Look a key up in a FlarmNet record list: the last record with that
/// key, as a map built by insertion would hold it.
fn lookup_flarmnet(list: &Vec<Record>, k: &String) -> (r: Option<Record>)
    ensures
        opt_view(r) == find_last_flarmnet(views_of(list@), k@),
{
    let mut i = list.len();
    proof {
        assert(views_of(list@).take(i as int) == views_of(list@));
    }
    while i > 0
        invariant
            i <= list@.len(),
            find_last_flarmnet(views_of(list@), k@) == find_last_flarmnet(
                views_of(list@).take(i as int),
                k@,
            ),
        decreases i,
    {
        i = i - 1;
        proof {
            assert(views_of(list@).take(i + 1).drop_last() =~= views_of(list@).take(i as int));
            assert(views_of(list@).take(i + 1).last() == list@[i as int]@);
        }
        let key_i = to_lower(list[i].flarm_id.as_str());
        if key_i == *k {
            return Option::Some(list[i].duplicate());
        }
    }
    proof {
        assert(find_last_flarmnet(views_of(list@).take(0), k@) is None);
    }
    Option::None
}

/// Look a key up in a device-database list.
fn lookup_ogn(list: &Vec<ogn::Device>, k: &String) -> (r: Option<ogn::Device>)
    ensures
        ogn::opt_view(r) == find_last_ogn(ogn_views(list@), k@),
{
    let mut i = list.len();
    proof {
        assert(ogn_views(list@).take(i as int) == ogn_views(list@));
    }
    while i > 0
        invariant
            i <= list@.len(),
            find_last_ogn(ogn_views(list@), k@) == find_last_ogn(
                ogn_views(list@).take(i as int),
                k@,
            ),
        decreases i,
    {
        i = i - 1;
        proof {
            assert(ogn_views(list@).take(i + 1).drop_last() =~= ogn_views(list@).take(i as int));
            assert(ogn_views(list@).take(i + 1).last() == list@[i as int]@);
        }
        let key_i = to_lower(list[i].device_id.as_str());
        if key_i == *k {
            return Option::Some(list[i].duplicate());
        }
    }
    proof {
        assert(find_last_ogn(ogn_views(list@).take(0), k@) is None);
    }
    Option::None
}

/// Look a key up in a WeGlide device list.
fn lookup_weglide(list: &Vec<weglide::Device>, k: &String) -> (r: Option<weglide::Device>)
    ensures
        weglide::opt_view(r) == find_last_weglide(weglide_views(list@), k@),
{
    let mut i = list.len();
    proof {
        assert(weglide_views(list@).take(i as int) == weglide_views(list@));
    }
    while i > 0
        invariant
            i <= list@.len(),
            find_last_weglide(weglide_views(list@), k@) == find_last_weglide(
                weglide_views(list@).take(i as int),
                k@,
            ),
        decreases i,
    {
        i = i - 1;
        proof {
            assert(weglide_views(list@).take(i + 1).drop_last() =~= weglide_views(list@).take(
                i as int,
            ));
            assert(weglide_views(list@).take(i + 1).last() == list@[i as int]@);
        }
        let key_i = to_lower(list[i].id.as_str());
        if key_i == *k {
            return Option::Some(list[i].duplicate());
        }
    }
    proof {
        assert(find_last_weglide(weglide_views(list@).take(0), k@) is None);
    }
    Option::None
}

/// Order the rows by the numeric value of their identification code,
/// stably.
fn sort_records(rows: Vec<Record>) -> (r: Vec<Record>)
    requires
        forall|i: int| 0 <= i < rows@.len() ==> valid_hex_id((#[trigger] rows@[i])@.flarm_id),
    ensures
        views_of(r@) == sort_rows(views_of(rows@)),
{
    let ghost orig = rows@;
    let mut rest = rows;
    let mut sorted: Vec<Record> = Vec::new();
    let mut i: usize = 0;
    let n = rest.len();
    proof {
        assert(orig.skip(0) == orig);
        assert(views_of(orig.take(0)) =~= Seq::<RecordView>::empty());
    }
    while rest.len() > 0
        invariant
            i <= orig.len(),
            orig.len() <= usize::MAX,
            rest@ == orig.skip(i as int),
            views_of(sorted@) == sort_rows(views_of(orig.take(i as int))),
            forall|j: int| 0 <= j < orig.len() ==> valid_hex_id((#[trigger] orig[j])@.flarm_id),
            forall|j: int|
                0 <= j < sorted@.len() ==> valid_hex_id((#[trigger] sorted@[j])@.flarm_id),
        decreases rest@.len(),
    {
        proof {
            assert(orig.skip(i as int).remove(0) =~= orig.skip(i + 1));
        }
        let rec = rest.remove(0);
        let rk = match parse_hex_id(rec.flarm_id.as_str()) {
            Option::Some(v) => v,
            Option::None => {
                proof {
                    assert(false);
                }
                0
            },
        };
        let n_sorted = sorted.len();
        let mut p: usize = 0;
        while p < n_sorted
            invariant_except_break
            p <= n_sorted,
            invariant
                n_sorted == sorted@.len(),
                rk as int == row_key(rec@),
                forall|j: int|
                    0 <= j < sorted@.len() ==> valid_hex_id((#[trigger] sorted@[j])@.flarm_id),
                forall|j: int| 0 <= j < p ==> row_key((#[trigger] sorted@[j])@) <= rk as int,
            ensures
                p <= n_sorted,
                p < n_sorted ==> (rk as int) < row_key(sorted@[p as int]@),
            decreases n_sorted - p,
        {
            let pk = match parse_hex_id(sorted[p].flarm_id.as_str()) {
                Option::Some(v) => v,
                Option::None => {
                    proof {
                        assert(false);
                    }
                    0
                },
            };
            if pk > rk {
                break ;
            }
            p = p + 1;
        }
        proof {
            lemma_insert_row_at(rec@, views_of(sorted@), p as int);
            assert(views_of(sorted@.insert(p as int, rec)) =~= views_of(sorted@).take(
                p as int,
            ).push(rec@) + views_of(sorted@).skip(p as int));
            assert(views_of(orig.take(i + 1)).drop_last() =~= views_of(orig.take(i as int)));
            assert(views_of(orig.take(i + 1)).last() == orig[i as int]@);
        }
        sorted.insert(p, rec);
        i = i + 1;
    }
    proof {
        assert(orig.take(i as int) == orig);
    }
    sorted
}

/// Clear every airfield that merely repeats the registration.
fn collapse_airfields(rows: Vec<Record>) -> (r: Vec<Record>)
    ensures
        views_of(r@) == collapse_rows(views_of(rows@)),
{
    let ghost orig = rows@;
    let mut rest = rows;
    let mut out: Vec<Record> = Vec::new();
    let mut i: usize = 0;
    let n = rest.len();
    proof {
        assert(orig.len() == n);
        assert(orig.skip(0) == orig);
        assert(collapse_rows(views_of(orig.take(0))) =~= Seq::<RecordView>::empty());
    }
    while rest.len() > 0
        invariant
            i <= orig.len(),
            orig.len() <= usize::MAX,
            rest@ == orig.skip(i as int),
            views_of(out@) == collapse_rows(views_of(orig.take(i as int))),
        decreases rest@.len(),
    {
        proof {
            assert(orig.skip(i as int).remove(0) =~= orig.skip(i + 1));
        }
        let rec = rest.remove(0);
        if rec.airfield == rec.registration {
            out.push(
                Record {
                    flarm_id: rec.flarm_id,
                    pilot_name: rec.pilot_name,
                    airfield: String::new(),
                    plane_type: rec.plane_type,
                    registration: rec.registration,
                    call_sign: rec.call_sign,
                    frequency: rec.frequency,
                },
            );
        } else {
            out.push(rec);
        }
        proof {
            assert(collapse_rows(views_of(orig.take(i + 1))) =~= collapse_rows(
                views_of(orig.take(i as int)),
            ).push(collapse_row(orig[i as int]@)));
        }
        i = i + 1;
    }
    proof {
        assert(orig.take(i as int) == orig);
    }
    out
}

/// Merge the three source lists into the final dataset: one record per
/// key, the precedence rules applied, ordered by the numeric value of
/// the identification code, the airfield collapse applied. Every
/// identification code must be a well-formed hexadecimal code; the
/// order rests on its numeric value.
pub fn merge_datasets(
    flarmnet_records: Vec<Record>,
    ogn_devices: Vec<ogn::Device>,
    weglide_devices: Vec<weglide::Device>,
) -> (r: Vec<Record>)
    requires
        forall|i: int|
            0 <= i < flarmnet_records@.len() ==> valid_hex_id(
                (#[trigger] flarmnet_records@[i])@.flarm_id,
            ),
        forall|i: int|
            0 <= i < ogn_devices@.len() ==> valid_hex_id((#[trigger] ogn_devices@[i])@.device_id),
        forall|i: int|
            0 <= i < weglide_devices@.len() ==> valid_hex_id((#[trigger] weglide_devices@[i])@.id),
    ensures
        views_of(r@) == spec_merge_datasets(
            views_of(flarmnet_records@),
            ogn_views(ogn_devices@),
            weglide_views(weglide_devices@),
        ),
{
    let ghost fv = views_of(flarmnet_records@);
    let ghost ov = ogn_views(ogn_devices@);
    let ghost wv = weglide_views(weglide_devices@);

    // Collect every key, in order of first appearance.
    let mut keys: Vec<String> = Vec::new();
    let n_f = flarmnet_records.len();
    let mut i: usize = 0;
    proof {
        assert(keys_from(Seq::empty(), f_keys(fv).take(0)) =~= key_views(keys@));
    }
    while i < n_f
        invariant
            i <= n_f,
            n_f == flarmnet_records@.len(),
            fv == views_of(flarmnet_records@),
            key_views(keys@) == keys_from(Seq::empty(), f_keys(fv).take(i as int)),
        decreases n_f - i,
    {
        proof {
            assert(f_keys(fv).take(i + 1).drop_last() =~= f_keys(fv).take(i as int));
            assert(f_keys(fv).take(i + 1).last() == rec_key(fv[i as int]));
        }
        let k = to_lower(flarmnet_records[i].flarm_id.as_str());
        push_key(&mut keys, k);
        i = i + 1;
    }
    proof {
        assert(f_keys(fv).take(n_f as int) == f_keys(fv));
    }
    let ghost keys_f = keys_from(Seq::empty(), f_keys(fv));

    let n_o = ogn_devices.len();
    let mut i: usize = 0;
    proof {
        assert(keys_from(keys_f, o_keys(ov).take(0)) =~= key_views(keys@));
    }
    while i < n_o
        invariant
            i <= n_o,
            n_o == ogn_devices@.len(),
            ov == ogn_views(ogn_devices@),
            key_views(keys@) == keys_from(keys_f, o_keys(ov).take(i as int)),
        decreases n_o - i,
    {
        proof {
            assert(o_keys(ov).take(i + 1).drop_last() =~= o_keys(ov).take(i as int));
            assert(o_keys(ov).take(i + 1).last() == ogn_key(ov[i as int]));
        }
        let k = to_lower(ogn_devices[i].device_id.as_str());
        push_key(&mut keys, k);
        i = i + 1;
    }
    proof {
        assert(o_keys(ov).take(n_o as int) == o_keys(ov));
    }
    let ghost keys_fo = keys_from(keys_f, o_keys(ov));

    let n_w = weglide_devices.len();
    let mut i: usize = 0;
    proof {
        assert(keys_from(keys_fo, w_keys(wv).take(0)) =~= key_views(keys@));
    }
    while i < n_w
        invariant
            i <= n_w,
            n_w == weglide_devices@.len(),
            wv == weglide_views(weglide_devices@),
            key_views(keys@) == keys_from(keys_fo, w_keys(wv).take(i as int)),
        decreases n_w - i,
    {
        proof {
            assert(w_keys(wv).take(i + 1).drop_last() =~= w_keys(wv).take(i as int));
            assert(w_keys(wv).take(i + 1).last() == weglide_key(wv[i as int]));
        }
        let k = to_lower(weglide_devices[i].id.as_str());
        push_key(&mut keys, k);
        i = i + 1;
    }
    proof {
        assert(w_keys(wv).take(n_w as int) == w_keys(wv));
        assert(key_views(keys@) == all_keys(fv, ov, wv));
    }

    // Merge the three sources at each key.
    let mut rows: Vec<Record> = Vec::new();
    let n_k = keys.len();
    let mut ki: usize = 0;
    proof {
        assert(merged_rows(key_views(keys@).take(0), fv, ov, wv) =~= Seq::<RecordView>::empty());
        assert(views_of(rows@) =~= Seq::<RecordView>::empty());
    }
    while ki < n_k
        invariant
            ki <= n_k,
            n_k == keys@.len(),
            fv == views_of(flarmnet_records@),
            ov == ogn_views(ogn_devices@),
            wv == weglide_views(weglide_devices@),
            views_of(rows@) == merged_rows(key_views(keys@).take(ki as int), fv, ov, wv),
        decreases n_k - ki,
    {
        proof {
            assert(key_views(keys@).take(ki + 1).drop_last() =~= key_views(keys@).take(ki as int));
            assert(key_views(keys@).take(ki + 1).last() == keys@[ki as int]@);
        }
        let k = &keys[ki];
        let fo = lookup_flarmnet(&flarmnet_records, k);
        let oo = lookup_ogn(&ogn_devices, k);
        let wo = lookup_weglide(&weglide_devices, k);
        match merge(fo, oo, wo) {
            Option::Some(m) => {
                rows.push(m);
            },
            Option::None => (),
        }
        ki = ki + 1;
    }
    proof {
        assert(key_views(keys@).take(n_k as int) == key_views(keys@));
        assert(views_of(rows@) == merged_rows(all_keys(fv, ov, wv), fv, ov, wv));
        lemma_merged_rows_valid(all_keys(fv, ov, wv), fv, ov, wv);
        assert(forall|j: int| 0 <= j < rows@.len() ==> (#[trigger] rows@[j])@ == views_of(rows@)[j]);
    }

    let sorted = sort_records(rows);
    collapse_airfields(sorted)
}

/// Whether no two records of a dataset share a merge key.
pub open spec fn distinct_keys(s: Seq<RecordView>) -> bool {
    forall|i: int, j: int|
        0 <= i < j < s.len() ==> rec_key(#[trigger] s[i]) != rec_key(#[trigger] s[j])
}

proof fn lemma_keys_from_distinct(acc: Seq<Seq<char>>, ks: Seq<Seq<char>>)
    requires
        acc.no_duplicates(),
    ensures
        keys_from(acc, ks).no_duplicates(),
    decreases ks.len(),
{
    if ks.len() > 0 {
        lemma_keys_from_distinct(acc, ks.drop_last());
        let base = keys_from(acc, ks.drop_last());
        if !base.contains(ks.last()) {
            assert(forall|i: int|
                0 <= i < base.len() ==> #[trigger] base.push(ks.last())[i] == base[i]);
        }
    }
}

proof fn lemma_find_last_flarmnet_key(s: Seq<RecordView>, k: Seq<char>)
    ensures
        find_last_flarmnet(s, k) matches Option::Some(r) ==> rec_key(r) == k,
    decreases s.len(),
{
    if s.len() > 0 && rec_key(s.last()) != k {
        lemma_find_last_flarmnet_key(s.drop_last(), k);
    }
}

proof fn lemma_find_last_ogn_key(s: Seq<ogn::DeviceView>, k: Seq<char>)
    ensures
        find_last_ogn(s, k) matches Option::Some(d) ==> ogn_key(d) == k,
    decreases s.len(),
{
    if s.len() > 0 && ogn_key(s.last()) != k {
        lemma_find_last_ogn_key(s.drop_last(), k);
    }
}

proof fn lemma_find_last_weglide_key(s: Seq<weglide::DeviceView>, k: Seq<char>)
    ensures
        find_last_weglide(s, k) matches Option::Some(d) ==> weglide_key(d) == k,
    decreases s.len(),
{
    if s.len() > 0 && weglide_key(s.last()) != k {
        lemma_find_last_weglide_key(s.drop_last(), k);
    }
}

/// The merged record at a key carries an identification code whose
/// merge key is that key: the code comes from one of the sources'
/// entries at the key.
proof fn lemma_merge_at_key(
    f: Seq<RecordView>,
    o: Seq<ogn::DeviceView>,
    w: Seq<weglide::DeviceView>,
    k: Seq<char>,
)
    ensures
        spec_merge_at(f, o, w, k) matches Option::Some(r) ==> rec_key(r) == k,
{
    lemma_find_last_flarmnet_key(f, k);
    lemma_find_last_ogn_key(o, k);
    lemma_find_last_weglide_key(w, k);
}

/// The merged rows of distinct keys have distinct keys, and each row's
/// key is one of the given keys.
proof fn lemma_merged_rows_distinct(
    keys: Seq<Seq<char>>,
    f: Seq<RecordView>,
    o: Seq<ogn::DeviceView>,
    w: Seq<weglide::DeviceView>,
)
    requires
        keys.no_duplicates(),
    ensures
        distinct_keys(merged_rows(keys, f, o, w)),
        forall|i: int|
            0 <= i < merged_rows(keys, f, o, w).len() ==> keys.contains(
                rec_key(#[trigger] merged_rows(keys, f, o, w)[i]),
            ),
    decreases keys.len(),
{
    if keys.len() > 0 {
        let dl = keys.drop_last();
        assert(dl.no_duplicates());
        lemma_merged_rows_distinct(dl, f, o, w);
        lemma_merge_at_key(f, o, w, keys.last());
        let rest = merged_rows(dl, f, o, w);
        let rows = merged_rows(keys, f, o, w);
        assert(forall|i: int| 0 <= i < dl.len() ==> #[trigger] keys[i] == dl[i]);
        assert(forall|i: int|
            0 <= i < rest.len() && dl.contains(rec_key(#[trigger] rest[i])) ==> keys.contains(
                rec_key(rest[i]),
            ));
        match spec_merge_at(f, o, w, keys.last()) {
            Option::None => {
                assert(rows == rest);
            },
            Option::Some(r) => {
                assert(rows == rest.push(r));
                assert(keys.contains(rec_key(r))) by {
                    assert(keys[keys.len() - 1] == keys.last());
                }
                // The new row's key is the last key, which no earlier
                // key equals, so no earlier row's key equals it.
                assert(forall|i: int|
                    0 <= i < rest.len() ==> rec_key(#[trigger] rest[i]) != rec_key(r)) by {
                    assert(forall|i: int|
                        0 <= i < rest.len() ==> dl.contains(rec_key(#[trigger] rest[i])));
                    assert(forall|q: int|
                        0 <= q < dl.len() ==> #[trigger] dl[q] != keys.last()) by {
                        assert(forall|q: int|
                            0 <= q < dl.len() ==> keys[q] == #[trigger] dl[q]);
                    }
                }
                assert(forall|i: int| 0 <= i < rest.len() ==> #[trigger] rows[i] == rest[i]);
                assert(rows[rows.len() - 1] == r);
            },
        }
    }
}

/// Inserting a row whose key is fresh keeps the keys distinct; every
/// row of the result is the inserted row or one of the old rows.
proof fn lemma_insert_row_distinct(r: RecordView, s: Seq<RecordView>)
    requires
        distinct_keys(s),
        forall|i: int| 0 <= i < s.len() ==> rec_key(#[trigger] s[i]) != rec_key(r),
    ensures
        distinct_keys(insert_row(r, s)),
        forall|p: int|
            0 <= p < insert_row(r, s).len() ==> (#[trigger] insert_row(r, s)[p] == r || s.contains(
                insert_row(r, s)[p],
            )),
    decreases s.len(),
{
    let res = insert_row(r, s);
    if s.len() == 0 {
        assert(res == seq![r]);
    } else if row_key(r) < row_key(s[0]) {
        assert(res == seq![r] + s);
        assert(res[0] == r);
        assert(forall|p: int| 1 <= p < res.len() ==> #[trigger] res[p] == s[p - 1]);
        assert(forall|p: int| 1 <= p < res.len() ==> s.contains(#[trigger] res[p]));
    } else {
        let t = s.drop_first();
        assert(forall|i: int| 0 <= i < t.len() ==> #[trigger] t[i] == s[i + 1]);
        assert(distinct_keys(t));
        lemma_insert_row_distinct(r, t);
        let sub = insert_row(r, t);
        assert(res == seq![s[0]] + sub);
        assert(res[0] == s[0]);
        assert(forall|p: int| 1 <= p < res.len() ==> #[trigger] res[p] == sub[p - 1]);
        assert(forall|p: int|
            0 <= p < res.len() ==> (#[trigger] res[p] == r || s.contains(res[p]))) by {
            assert(s.contains(s[0]));
            assert(forall|q: int| 0 <= q < t.len() && t.contains(#[trigger] t[q]) ==> s.contains(
                t[q],
            ));
            assert(forall|p: int|
                1 <= p < res.len() && sub[p - 1] != r ==> t.contains(#[trigger] res[p]));
        }
        assert(distinct_keys(res)) by {
            assert(forall|p: int|
                1 <= p < res.len() ==> (#[trigger] res[p] == r || t.contains(res[p])));
            assert(forall|p: int|
                1 <= p < res.len() ==> rec_key(#[trigger] res[p]) != rec_key(s[0]));
        }
    }
}

/// Ordering the rows keeps the keys distinct; every row of the result
/// is one of the old rows.
proof fn lemma_sort_rows_distinct(s: Seq<RecordView>)
    requires
        distinct_keys(s),
    ensures
        distinct_keys(sort_rows(s)),
        forall|p: int|
            0 <= p < sort_rows(s).len() ==> s.contains(#[trigger] sort_rows(s)[p]),
    decreases s.len(),
{
    if s.len() > 0 {
        let dl = s.drop_last();
        assert(distinct_keys(dl));
        lemma_sort_rows_distinct(dl);
        let sorted = sort_rows(dl);
        assert(forall|q: int| 0 <= q < dl.len() ==> #[trigger] dl[q] == s[q]);
        assert(forall|p: int| 0 <= p < sorted.len() ==> s.contains(#[trigger] sorted[p]));
        assert(forall|p: int|
            0 <= p < sorted.len() ==> rec_key(#[trigger] sorted[p]) != rec_key(s.last())) by {
            assert(forall|p: int|
                0 <= p < sorted.len() ==> dl.contains(#[trigger] sorted[p]));
            assert(forall|q: int|
                0 <= q < dl.len() ==> rec_key(#[trigger] dl[q]) != rec_key(s.last()));
        }
        lemma_insert_row_distinct(s.last(), sorted);
        assert(s.contains(s.last())) by {
            assert(s[s.len() - 1] == s.last());
        }
    }
}

proof fn lemma_insert_row_keeps(r: RecordView, s: Seq<RecordView>)
    ensures
        insert_row(r, s).contains(r),
        forall|q: int| 0 <= q < s.len() ==> insert_row(r, s).contains(#[trigger] s[q]),
    decreases s.len(),
{
    broadcast use vstd::seq_lib::lemma_seq_concat_contains_all_elements;

    let res = insert_row(r, s);
    if s.len() == 0 {
        assert(res == seq![r]);
        assert(res[0] == r);
    } else if row_key(r) < row_key(s[0]) {
        assert(res == seq![r] + s);
        assert(seq![r][0] == r);
        assert forall|q: int| 0 <= q < s.len() implies res.contains(#[trigger] s[q]) by {
            assert(s.contains(s[q]));
        }
    } else {
        let t = s.drop_first();
        lemma_insert_row_keeps(r, t);
        let sub = insert_row(r, t);
        assert(res == seq![s[0]] + sub);
        assert(seq![s[0]][0] == s[0]);
        assert forall|q: int| 0 <= q < s.len() implies res.contains(#[trigger] s[q]) by {
            if q > 0 {
                assert(t[q - 1] == s[q]);
                assert(sub.contains(t[q - 1]));
            }
        }
    }
}

proof fn lemma_sort_rows_keeps(s: Seq<RecordView>)
    ensures
        forall|q: int| 0 <= q < s.len() ==> sort_rows(s).contains(#[trigger] s[q]),
    decreases s.len(),
{
    if s.len() > 0 {
        let dl = s.drop_last();
        lemma_sort_rows_keeps(dl);
        let sorted = sort_rows(dl);
        lemma_insert_row_keeps(s.last(), sorted);
        assert forall|q: int| 0 <= q < s.len() implies sort_rows(s).contains(#[trigger] s[q]) by {
            if q < s.len() - 1 {
                assert(dl[q] == s[q]);
                assert(sorted.contains(dl[q]));
                let p = choose|p: int| 0 <= p < sorted.len() && sorted[p] == dl[q];
                assert(sort_rows(s).contains(sorted[p]));
            } else {
                assert(s[q] == s.last());
            }
        }
    }
}

proof fn lemma_keys_from_covers(acc: Seq<Seq<char>>, ks: Seq<Seq<char>>)
    ensures
        forall|x: Seq<char>|
            (acc.contains(x) || ks.contains(x)) ==> #[trigger] keys_from(acc, ks).contains(x),
    decreases ks.len(),
{
    broadcast use vstd::seq_lib::lemma_seq_contains_after_push;

    if ks.len() > 0 {
        let dl = ks.drop_last();
        lemma_keys_from_covers(acc, dl);
        let base = keys_from(acc, dl);
        let res = keys_from(acc, ks);
        assert forall|x: Seq<char>| acc.contains(x) || ks.contains(x) implies #[trigger] res.contains(
            x,
        ) by {
            if ks.contains(x) {
                let q = choose|q: int| 0 <= q < ks.len() && ks[q] == x;
                if q < ks.len() - 1 {
                    assert(dl[q] == x);
                    assert(dl.contains(x));
                } else {
                    assert(x == ks.last());
                }
            }
            if base.contains(x) || x == ks.last() {
                assert(add_key(base, ks.last()).contains(x));
            }
        }
    }
}

proof fn lemma_find_last_flarmnet_some(s: Seq<RecordView>, k: Seq<char>)
    requires
        exists|i: int| 0 <= i < s.len() && rec_key(#[trigger] s[i]) == k,
    ensures
        find_last_flarmnet(s, k) is Some,
    decreases s.len(),
{
    if rec_key(s.last()) != k {
        let i = choose|i: int| 0 <= i < s.len() && rec_key(#[trigger] s[i]) == k;
        assert(s.drop_last()[i] == s[i]);
        lemma_find_last_flarmnet_some(s.drop_last(), k);
    }
}

proof fn lemma_find_last_ogn_some(s: Seq<ogn::DeviceView>, k: Seq<char>)
    requires
        exists|i: int| 0 <= i < s.len() && ogn_key(#[trigger] s[i]) == k,
    ensures
        find_last_ogn(s, k) is Some,
    decreases s.len(),
{
    if ogn_key(s.last()) != k {
        let i = choose|i: int| 0 <= i < s.len() && ogn_key(#[trigger] s[i]) == k;
        assert(s.drop_last()[i] == s[i]);
        lemma_find_last_ogn_some(s.drop_last(), k);
    }
}

proof fn lemma_find_last_weglide_some(s: Seq<weglide::DeviceView>, k: Seq<char>)
    requires
        exists|i: int| 0 <= i < s.len() && weglide_key(#[trigger] s[i]) == k,
    ensures
        find_last_weglide(s, k) is Some,
    decreases s.len(),
{
    if weglide_key(s.last()) != k {
        let i = choose|i: int| 0 <= i < s.len() && weglide_key(#[trigger] s[i]) == k;
        assert(s.drop_last()[i] == s[i]);
        lemma_find_last_weglide_some(s.drop_last(), k);
    }
}

/// Every key of the list whose merged record exists yields one row.
proof fn lemma_merged_rows_cover(
    keys: Seq<Seq<char>>,
    f: Seq<RecordView>,
    o: Seq<ogn::DeviceView>,
    w: Seq<weglide::DeviceView>,
)
    ensures
        forall|j: int|
            0 <= j < keys.len() && spec_merge_at(f, o, w, #[trigger] keys[j]) is Some
                ==> merged_rows(keys, f, o, w).contains(spec_merge_at(f, o, w, keys[j])->0),
    decreases keys.len(),
{
    broadcast use vstd::seq_lib::lemma_seq_contains_after_push;

    if keys.len() > 0 {
        let dl = keys.drop_last();
        lemma_merged_rows_cover(dl, f, o, w);
        let rest = merged_rows(dl, f, o, w);
        let rows = merged_rows(keys, f, o, w);
        assert forall|j: int|
            0 <= j < keys.len() && spec_merge_at(f, o, w, #[trigger] keys[j]) is Some implies rows.contains(
            spec_merge_at(f, o, w, keys[j])->0,
        ) by {
            if j < keys.len() - 1 {
                assert(dl[j] == keys[j]);
                assert(rest.contains(spec_merge_at(f, o, w, dl[j])->0));
                match spec_merge_at(f, o, w, keys.last()) {
                    Option::None => {
                        assert(rows == rest);
                    },
                    Option::Some(r) => {
                        assert(rows == rest.push(r));
                    },
                }
            } else {
                assert(keys[j] == keys.last());
                let r = spec_merge_at(f, o, w, keys.last())->0;
                assert(rows == rest.push(r));
            }
        }
    }
}

/// No key is lost: for every record or device of any source, the
/// merged dataset holds a record at that entry's key. Together with
/// the uniqueness of keys, the dataset is exactly the union of the
/// three sources' key sets.
pub proof fn lemma_every_source_key_in_output(
    f: Seq<RecordView>,
    o: Seq<ogn::DeviceView>,
    w: Seq<weglide::DeviceView>,
)
    ensures
        forall|i: int|
            0 <= i < f.len() ==> exists|p: int|
                0 <= p < spec_merge_datasets(f, o, w).len() && rec_key(
                    #[trigger] spec_merge_datasets(f, o, w)[p],
                ) == rec_key(#[trigger] f[i]),
        forall|i: int|
            0 <= i < o.len() ==> exists|p: int|
                0 <= p < spec_merge_datasets(f, o, w).len() && rec_key(
                    #[trigger] spec_merge_datasets(f, o, w)[p],
                ) == ogn_key(#[trigger] o[i]),
        forall|i: int|
            0 <= i < w.len() ==> exists|p: int|
                0 <= p < spec_merge_datasets(f, o, w).len() && rec_key(
                    #[trigger] spec_merge_datasets(f, o, w)[p],
                ) == weglide_key(#[trigger] w[i]),
{
    let keys = all_keys(f, o, w);
    let rows = merged_rows(keys, f, o, w);
    let sorted = sort_rows(rows);
    let out = spec_merge_datasets(f, o, w);
    lemma_keys_from_covers(Seq::empty(), f_keys(f));
    lemma_keys_from_covers(keys_from(Seq::empty(), f_keys(f)), o_keys(o));
    lemma_keys_from_covers(keys_from(keys_from(Seq::empty(), f_keys(f)), o_keys(o)), w_keys(w));
    lemma_merged_rows_cover(keys, f, o, w);
    lemma_sort_rows_keeps(rows);
    assert(forall|p: int| 0 <= p < out.len() ==> #[trigger] out[p] == collapse_row(sorted[p]));
    assert(forall|p: int|
        0 <= p < sorted.len() ==> rec_key(collapse_row(#[trigger] sorted[p])) == rec_key(
            sorted[p],
        ));

    assert forall|i: int| 0 <= i < f.len() implies exists|p: int|
        0 <= p < out.len() && rec_key(#[trigger] out[p]) == rec_key(#[trigger] f[i]) by {
        let k = rec_key(f[i]);
        assert(f_keys(f)[i] == k);
        assert(f_keys(f).contains(k));
        assert(keys.contains(k));
        let j = choose|j: int| 0 <= j < keys.len() && keys[j] == k;
        lemma_find_last_flarmnet_some(f, k);
        lemma_merge_at_key(f, o, w, k);
        assert(spec_merge_at(f, o, w, k) is Some);
        let r = spec_merge_at(f, o, w, k)->0;
        assert(rows.contains(r));
        let q = choose|q: int| 0 <= q < rows.len() && rows[q] == r;
        assert(sorted.contains(r));
        let p = choose|p: int| 0 <= p < sorted.len() && sorted[p] == r;
        assert(rec_key(out[p]) == k);
    }
    assert forall|i: int| 0 <= i < o.len() implies exists|p: int|
        0 <= p < out.len() && rec_key(#[trigger] out[p]) == ogn_key(#[trigger] o[i]) by {
        let k = ogn_key(o[i]);
        assert(o_keys(o)[i] == k);
        assert(o_keys(o).contains(k));
        assert(keys.contains(k));
        let j = choose|j: int| 0 <= j < keys.len() && keys[j] == k;
        lemma_find_last_ogn_some(o, k);
        lemma_merge_at_key(f, o, w, k);
        assert(spec_merge_at(f, o, w, k) is Some);
        let r = spec_merge_at(f, o, w, k)->0;
        assert(rows.contains(r));
        let q = choose|q: int| 0 <= q < rows.len() && rows[q] == r;
        assert(sorted.contains(r));
        let p = choose|p: int| 0 <= p < sorted.len() && sorted[p] == r;
        assert(rec_key(out[p]) == k);
    }
    assert forall|i: int| 0 <= i < w.len() implies exists|p: int|
        0 <= p < out.len() && rec_key(#[trigger] out[p]) == weglide_key(#[trigger] w[i]) by {
        let k = weglide_key(w[i]);
        assert(w_keys(w)[i] == k);
        assert(w_keys(w).contains(k));
        assert(keys.contains(k));
        let j = choose|j: int| 0 <= j < keys.len() && keys[j] == k;
        lemma_find_last_weglide_some(w, k);
        lemma_merge_at_key(f, o, w, k);
        assert(spec_merge_at(f, o, w, k) is Some);
        let r = spec_merge_at(f, o, w, k)->0;
        assert(rows.contains(r));
        let q = choose|q: int| 0 <= q < rows.len() && rows[q] == r;
        assert(sorted.contains(r));
        let p = choose|p: int| 0 <= p < sorted.len() && sorted[p] == r;
        assert(rec_key(out[p]) == k);
    }
}

/// What the dataset holds at a key: for every key of any source, the
/// merged dataset holds exactly the per-key merge of what the three
/// sources hold there, with the airfield collapse applied.
pub proof fn lemma_output_at_key(
    f: Seq<RecordView>,
    o: Seq<ogn::DeviceView>,
    w: Seq<weglide::DeviceView>,
    k: Seq<char>,
)
    requires
        all_keys(f, o, w).contains(k),
    ensures
        spec_merge_at(f, o, w, k) matches Option::Some(m) ==> spec_merge_datasets(
            f,
            o,
            w,
        ).contains(collapse_row(m)),
{
    let keys = all_keys(f, o, w);
    let rows = merged_rows(keys, f, o, w);
    let sorted = sort_rows(rows);
    let out = spec_merge_datasets(f, o, w);
    if spec_merge_at(f, o, w, k) is Some {
        let m = spec_merge_at(f, o, w, k)->0;
        lemma_merged_rows_cover(keys, f, o, w);
        let j = choose|j: int| 0 <= j < keys.len() && keys[j] == k;
        assert(rows.contains(m));
        lemma_sort_rows_keeps(rows);
        let q = choose|q: int| 0 <= q < rows.len() && rows[q] == m;
        assert(sorted.contains(m));
        let p = choose|p: int| 0 <= p < sorted.len() && sorted[p] == m;
        assert(out[p] == collapse_row(m));
    }
}

/// Whether the rows stand in non-decreasing key order.
pub open spec fn sorted_by_id(s: Seq<RecordView>) -> bool {
    forall|i: int, j: int|
        0 <= i < j < s.len() ==> row_key(#[trigger] s[i]) <= row_key(#[trigger] s[j])
}

proof fn lemma_insert_row_sorted(r: RecordView, s: Seq<RecordView>)
    requires
        sorted_by_id(s),
    ensures
        sorted_by_id(insert_row(r, s)),
    decreases s.len(),
{
    let res = insert_row(r, s);
    if s.len() == 0 {
    } else if row_key(r) < row_key(s[0]) {
        assert(res == seq![r] + s);
        assert(res[0] == r);
        assert(forall|p: int| 1 <= p < res.len() ==> #[trigger] res[p] == s[p - 1]);
    } else {
        let t = s.drop_first();
        assert(forall|i: int| 0 <= i < t.len() ==> #[trigger] t[i] == s[i + 1]);
        assert(sorted_by_id(t));
        lemma_insert_row_sorted(r, t);
        let sub = insert_row(r, t);
        assert(res == seq![s[0]] + sub);
        assert(res[0] == s[0]);
        assert(forall|p: int| 1 <= p < res.len() ==> #[trigger] res[p] == sub[p - 1]);
        // Every row of the inserted tail is the new row or an old one,
        // and both have keys at least the head's.
        lemma_insert_row_elements(r, t);
        assert(forall|p: int|
            0 <= p < sub.len() ==> row_key(s[0]) <= row_key(#[trigger] sub[p])) by {
            assert(forall|q: int|
                0 <= q < t.len() && t.contains(#[trigger] t[q]) ==> row_key(s[0]) <= row_key(
                    t[q],
                ));
        }
    }
}

/// Every row of an insertion's result is the inserted row or one of
/// the old ones.
proof fn lemma_insert_row_elements(r: RecordView, s: Seq<RecordView>)
    ensures
        forall|p: int|
            0 <= p < insert_row(r, s).len() ==> (#[trigger] insert_row(r, s)[p] == r || s.contains(
                insert_row(r, s)[p],
            )),
    decreases s.len(),
{
    let res = insert_row(r, s);
    if s.len() == 0 {
        assert(res == seq![r]);
    } else if row_key(r) < row_key(s[0]) {
        assert(res == seq![r] + s);
        assert(forall|p: int| 1 <= p < res.len() ==> #[trigger] res[p] == s[p - 1]);
        assert(forall|p: int| 1 <= p < res.len() ==> s.contains(#[trigger] res[p]));
    } else {
        let t = s.drop_first();
        lemma_insert_row_elements(r, t);
        let sub = insert_row(r, t);
        assert(res == seq![s[0]] + sub);
        assert(res[0] == s[0]);
        assert(s.contains(s[0]));
        assert(forall|p: int| 1 <= p < res.len() ==> #[trigger] res[p] == sub[p - 1]);
        assert(forall|i: int| 0 <= i < t.len() ==> #[trigger] t[i] == s[i + 1]);
        assert(forall|q: int| 0 <= q < t.len() && t.contains(#[trigger] t[q]) ==> s.contains(
            t[q],
        ));
    }
}

proof fn lemma_sort_rows_sorted(s: Seq<RecordView>)
    ensures
        sorted_by_id(sort_rows(s)),
    decreases s.len(),
{
    if s.len() > 0 {
        lemma_sort_rows_sorted(s.drop_last());
        lemma_insert_row_sorted(s.last(), sort_rows(s.drop_last()));
    }
}

/// The merged dataset stands in non-decreasing order of the numeric
/// value of the identification code.
pub proof fn lemma_dataset_sorted(
    f: Seq<RecordView>,
    o: Seq<ogn::DeviceView>,
    w: Seq<weglide::DeviceView>,
)
    ensures
        sorted_by_id(spec_merge_datasets(f, o, w)),
{
    let rows = merged_rows(all_keys(f, o, w), f, o, w);
    lemma_sort_rows_sorted(rows);
    let sorted = sort_rows(rows);
    let out = spec_merge_datasets(f, o, w);
    assert(forall|i: int| 0 <= i < out.len() ==> #[trigger] out[i] == collapse_row(sorted[i]));
    assert(forall|i: int|
        0 <= i < sorted.len() ==> row_key(collapse_row(#[trigger] sorted[i])) == row_key(
            sorted[i],
        ));
}

/// The dataset invariant: exactly one record per identification code.
/// No two records of the merged dataset share a merge key.
pub proof fn lemma_one_record_per_code(
    f: Seq<RecordView>,
    o: Seq<ogn::DeviceView>,
    w: Seq<weglide::DeviceView>,
)
    ensures
        distinct_keys(spec_merge_datasets(f, o, w)),
{
    let keys = all_keys(f, o, w);
    lemma_keys_from_distinct(Seq::empty(), f_keys(f));
    lemma_keys_from_distinct(keys_from(Seq::empty(), f_keys(f)), o_keys(o));
    lemma_keys_from_distinct(keys_from(keys_from(Seq::empty(), f_keys(f)), o_keys(o)), w_keys(w));
    lemma_merged_rows_distinct(keys, f, o, w);
    let rows = merged_rows(keys, f, o, w);
    lemma_sort_rows_distinct(rows);
    let sorted = sort_rows(rows);
    let out = spec_merge_datasets(f, o, w);
    assert(forall|i: int| 0 <= i < out.len() ==> #[trigger] out[i] == collapse_row(sorted[i]));
    assert(forall|i: int|
        0 <= i < sorted.len() ==> rec_key(collapse_row(#[trigger] sorted[i])) == rec_key(
            sorted[i],
        ));
}

/// Merging is deterministic: two datasets merged from the same three
/// input lists are identical. The merge is a pure function of its
/// inputs.
pub proof fn lemma_merge_deterministic(
    f: Seq<RecordView>,
    o: Seq<ogn::DeviceView>,
    w: Seq<weglide::DeviceView>,
    r1: Seq<RecordView>,
    r2: Seq<RecordView>,
)
    requires
        r1 == spec_merge_datasets(f, o, w),
        r2 == spec_merge_datasets(f, o, w),
    ensures
        r1 == r2,
{
}

/// In the merged dataset no airfield merely repeats the registration:
/// wherever the two fields agree, the airfield has been cleared.
pub proof fn lemma_airfield_collapse(
    f: Seq<RecordView>,
    o: Seq<ogn::DeviceView>,
    w: Seq<weglide::DeviceView>,
)
    ensures
        forall|i: int|
            0 <= i < spec_merge_datasets(f, o, w).len() ==> ((#[trigger] spec_merge_datasets(
                f,
                o,
                w,
            )[i]).airfield == spec_merge_datasets(f, o, w)[i].registration
                ==> spec_merge_datasets(f, o, w)[i].airfield.len() == 0),
{
    let sorted = sort_rows(merged_rows(all_keys(f, o, w), f, o, w));
    assert forall|i: int|
        0 <= i < spec_merge_datasets(f, o, w).len() && (#[trigger] spec_merge_datasets(f, o, w)[i]).airfield
            == spec_merge_datasets(f, o, w)[i].registration implies spec_merge_datasets(
        f,
        o,
        w,
    )[i].airfield.len() == 0 by {
        assert(spec_merge_datasets(f, o, w)[i] == collapse_row(sorted[i]));
    }
}

} // verus!
