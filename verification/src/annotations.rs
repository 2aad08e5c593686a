//! Labels and notes that a user gives to a device, and the page of one device.

use crate::device;
use crate::device::Device;
use crate::numerals;
use crate::numerals::{lower_chars, same_ignoring_case};
use crate::storage;
use crate::storage::{copy_text, Database, DeviceRecord};
use crate::text;
use crate::text::{chars_of, string_of, trim};
use vstd::prelude::*;

verus! {

/// Why a label or a note was refused.
#[derive(Clone, Copy, Debug, PartialEq, Eq, Structural)]
pub enum AnnotateError {
    /// The request names no device.
    NoAddress,
}

/// A hardware address as the history has it: without white space around it,
/// in lower case.
pub open spec fn tidy_mac(mac: Seq<char>) -> Seq<char> {
    numerals::lowered(text::trimmed(mac))
}

/// A label or a note as it is kept: without white space around it, and not at
/// all where nothing else is in it.
pub open spec fn tidy_note(note: Option<Seq<char>>) -> Option<Seq<char>> {
    match note {
        Some(s) => if text::trimmed(s).len() > 0 {
            Some(text::trimmed(s))
        } else {
            None
        },
        None => None,
    }
}

/// Whether a row is of the device `mac`; the case of letters does not matter.
pub open spec fn is_of(d: device::DeviceModel, mac: Seq<char>) -> bool {
    d.mac matches Some(m) && numerals::lowered(m) == numerals::lowered(mac)
}

/// The record of a device that was never seen.
pub open spec fn blank_record(now: u64) -> storage::RecordModel {
    storage::RecordModel {
        first_seen: now,
        last_seen: now,
        times_seen: 0,
        ip: Seq::<char>::empty(),
        vendor: None,
        hostname: None,
        label: None,
        notes: None,
        os_guess: None,
        presence_events: Seq::<storage::PresenceEvent>::empty(),
    }
}

/// The record of `mac`, or a blank one where the device was never seen.
pub open spec fn known_or_blank(
    db: Seq<(Seq<char>, storage::RecordModel)>,
    mac: Seq<char>,
    now: u64,
) -> storage::RecordModel {
    match storage::record_of(db, mac) {
        Some(rec) => rec,
        None => blank_record(now),
    }
}

/// The history with the label of `mac` replaced.
pub open spec fn labelled(
    db: Seq<(Seq<char>, storage::RecordModel)>,
    mac: Seq<char>,
    label: Option<Seq<char>>,
    now: u64,
) -> Seq<(Seq<char>, storage::RecordModel)> {
    storage::with_record(
        db,
        mac,
        storage::RecordModel { label, ..known_or_blank(db, mac, now) },
    )
}

/// The history with the notes of `mac` replaced.
pub open spec fn noted(
    db: Seq<(Seq<char>, storage::RecordModel)>,
    mac: Seq<char>,
    notes: Option<Seq<char>>,
    now: u64,
) -> Seq<(Seq<char>, storage::RecordModel)> {
    storage::with_record(
        db,
        mac,
        storage::RecordModel { notes, ..known_or_blank(db, mac, now) },
    )
}

/// The rows with the label of every row of `mac` replaced.
pub open spec fn rows_labelled(
    rows: Seq<device::DeviceModel>,
    mac: Seq<char>,
    label: Option<Seq<char>>,
) -> Seq<device::DeviceModel> {
    rows.map_values(
        |d: device::DeviceModel|
            if is_of(d, mac) {
                device::DeviceModel { label, ..d }
            } else {
                d
            },
    )
}

/// The rows with the notes of every row of `mac` replaced.
pub open spec fn rows_noted(
    rows: Seq<device::DeviceModel>,
    mac: Seq<char>,
    notes: Option<Seq<char>>,
) -> Seq<device::DeviceModel> {
    rows.map_values(
        |d: device::DeviceModel|
            if is_of(d, mac) {
                device::DeviceModel { notes, ..d }
            } else {
                d
            },
    )
}

fn tidy_mac_text(mac: &str) -> (res: String)
    ensures
        res@ == tidy_mac(mac@),
{
    let chars = chars_of(mac);
    string_of(&lower_chars(trim(&chars)))
}

fn tidy_note_text(note: &Option<String>) -> (res: Option<String>)
    ensures
        storage::text_of(res) == tidy_note(storage::text_of(*note)),
{
    match note {
        Some(s) => {
            let chars = chars_of(s.as_str());
            let kept = trim(&chars);
            if kept.len() > 0 {
                Some(string_of(kept))
            } else {
                None
            }
        },
        None => None,
    }
}

fn row_is_of(d: &Device, mac: &String) -> (res: bool)
    ensures
        res == is_of(d@, mac@),
{
    match &d.mac {
        Some(m) => same_ignoring_case(&chars_of(m.as_str()), &chars_of(mac.as_str())),
        None => false,
    }
}

fn copy_or_blank(db: &Database, mac: &String, now: u64) -> (res: DeviceRecord)
    ensures
        res@ == known_or_blank(db@, mac@, now),
{
    match db.get(mac) {
        Some(rec) => rec.copied(),
        None => DeviceRecord {
            first_seen: now,
            last_seen: now,
            times_seen: 0,
            ip: String::new(),
            vendor: None,
            hostname: None,
            label: None,
            notes: None,
            os_guess: None,
            presence_events: Vec::new(),
        },
    }
}

/// What the user writes about a device.
#[derive(Clone, Copy, PartialEq, Eq, Structural)]
enum Field {
    Label,
    Notes,
}

/// The history with one field of `mac` replaced.
spec fn annotated(
    field: Field,
    db: Seq<(Seq<char>, storage::RecordModel)>,
    mac: Seq<char>,
    note: Option<Seq<char>>,
    now: u64,
) -> Seq<(Seq<char>, storage::RecordModel)> {
    match field {
        Field::Label => labelled(db, mac, note, now),
        Field::Notes => noted(db, mac, note, now),
    }
}

/// The rows with one field of every row of `mac` replaced.
spec fn rows_annotated(
    field: Field,
    rows: Seq<device::DeviceModel>,
    mac: Seq<char>,
    note: Option<Seq<char>>,
) -> Seq<device::DeviceModel> {
    match field {
        Field::Label => rows_labelled(rows, mac, note),
        Field::Notes => rows_noted(rows, mac, note),
    }
}

fn annotate(
    field: Field,
    db: &mut Database,
    devices: &mut Vec<Device>,
    mac: &str,
    note: Option<String>,
    now: u64,
) -> (res: Result<Option<String>, AnnotateError>)
    requires
        old(db).wf(),
    ensures
        final(db).wf(),
        tidy_mac(mac@).len() == 0 <==> res == Err::<Option<String>, _>(AnnotateError::NoAddress),
        match res {
            Ok(kept) => {
                let key = tidy_mac(mac@);
                let tidy = tidy_note(storage::text_of(note));
                &&& storage::text_of(kept) == tidy
                &&& final(db)@ == annotated(field, old(db)@, key, tidy, now)
                &&& device::rows_of(final(devices)@) == rows_annotated(
                    field,
                    device::rows_of(old(devices)@),
                    key,
                    tidy,
                )
            },
            Err(_) => final(db)@ == old(db)@ && final(devices)@ == old(devices)@,
        },
{
    let key = tidy_mac_text(mac);
    if key.as_str().is_empty() {
        return Err(AnnotateError::NoAddress);
    }
    let kept = tidy_note_text(&note);
    let ghost tidy = tidy_note(storage::text_of(note));
    let mut rec = copy_or_blank(db, &key, now);
    match field {
        Field::Label => { rec.label = copy_text(&kept); },
        Field::Notes => { rec.notes = copy_text(&kept); },
    }
    db.put(key.clone(), rec);
    let ghost before = device::rows_of(devices@);
    let ghost want = rows_annotated(field, before, key@, tidy);
    let mut i: usize = 0;
    while i < devices.len()
        invariant
            i <= devices@.len(),
            devices@.len() == before.len(),
            want == rows_annotated(field, before, key@, tidy),
            storage::text_of(kept) == tidy,
            forall|k: int| 0 <= k < i ==> (#[trigger] device::rows_of(devices@)[k]) == want[k],
            forall|k: int|
                i <= k < before.len() ==> (#[trigger] device::rows_of(devices@)[k]) == before[k],
        decreases devices@.len() - i,
    {
        let ghost now_rows = device::rows_of(devices@);
        assert(now_rows[i as int] == before[i as int]);
        if row_is_of(&devices[i], &key) {
            let mut row = devices[i].copied();
            match field {
                Field::Label => { row.label = copy_text(&kept); },
                Field::Notes => { row.notes = copy_text(&kept); },
            }
            let ghost model = row@;
            devices[i] = row;
            assert(device::rows_of(devices@) =~= now_rows.update(i as int, model));
        }
        assert(device::rows_of(devices@)[i as int] == want[i as int]);
        i = i + 1;
    }
    assert(device::rows_of(devices@) =~= want);
    Ok(kept)
}

/// Gives the device `mac` a label, or takes it away where the label is blank;
/// hands back the label as it is kept.
pub fn set_label(
    db: &mut Database,
    devices: &mut Vec<Device>,
    mac: &str,
    label: Option<String>,
    now: u64,
) -> (res: Result<Option<String>, AnnotateError>)
    requires
        old(db).wf(),
    ensures
        final(db).wf(),
        tidy_mac(mac@).len() == 0 <==> res == Err::<Option<String>, _>(AnnotateError::NoAddress),
        match res {
            Ok(kept) => {
                let key = tidy_mac(mac@);
                let tidy = tidy_note(storage::text_of(label));
                &&& storage::text_of(kept) == tidy
                &&& final(db)@ == labelled(old(db)@, key, tidy, now)
                &&& device::rows_of(final(devices)@) == rows_labelled(
                    device::rows_of(old(devices)@),
                    key,
                    tidy,
                )
            },
            Err(_) => final(db)@ == old(db)@ && final(devices)@ == old(devices)@,
        },
{
    annotate(Field::Label, db, devices, mac, label, now)
}

/// Gives the device `mac` notes, or takes them away where they are blank;
/// hands back the notes as they are kept.
pub fn set_notes(
    db: &mut Database,
    devices: &mut Vec<Device>,
    mac: &str,
    notes: Option<String>,
    now: u64,
) -> (res: Result<Option<String>, AnnotateError>)
    requires
        old(db).wf(),
    ensures
        final(db).wf(),
        tidy_mac(mac@).len() == 0 <==> res == Err::<Option<String>, _>(AnnotateError::NoAddress),
        match res {
            Ok(kept) => {
                let key = tidy_mac(mac@);
                let tidy = tidy_note(storage::text_of(notes));
                &&& storage::text_of(kept) == tidy
                &&& final(db)@ == noted(old(db)@, key, tidy, now)
                &&& device::rows_of(final(devices)@) == rows_noted(
                    device::rows_of(old(devices)@),
                    key,
                    tidy,
                )
            },
            Err(_) => final(db)@ == old(db)@ && final(devices)@ == old(devices)@,
        },
{
    annotate(Field::Notes, db, devices, mac, notes, now)
}

/// What the page of one device shows.
pub struct DeviceDetail {
    pub mac: String,
    pub record: DeviceRecord,
    pub current: Option<Device>,
    pub same_vendor_count: usize,
}

/// The first row of the device `mac`.
pub open spec fn first_row_of(rows: Seq<device::DeviceModel>, mac: Seq<char>) -> Option<
    device::DeviceModel,
>
    decreases rows.len(),
{
    if rows.len() == 0 {
        None
    } else {
        match first_row_of(rows.drop_last(), mac) {
            Some(d) => Some(d),
            None => if is_of(rows.last(), mac) {
                Some(rows.last())
            } else {
                None
            },
        }
    }
}

/// How many of the entries are of the vendor `vendor`.
pub open spec fn vendor_count(
    db: Seq<(Seq<char>, storage::RecordModel)>,
    vendor: Seq<char>,
) -> nat
    decreases db.len(),
{
    if db.len() == 0 {
        0
    } else {
        vendor_count(db.drop_last(), vendor) + (if db.last().1.vendor == Some(vendor) {
            1nat
        } else {
            0
        })
    }
}

/// What the page of the device `mac` shows; nothing where it is not known.
pub fn device_detail(db: &Database, devices: &Vec<Device>, mac: &str) -> (res: Option<DeviceDetail>)
    ensures
        match res {
            Some(detail) => {
                let key = tidy_mac(mac@);
                &&& detail.mac@ == key
                &&& storage::record_of(db@, key) == Some(detail.record@)
                &&& match detail.current {
                    Some(row) => first_row_of(device::rows_of(devices@), key) == Some(row@),
                    None => first_row_of(device::rows_of(devices@), key) is None,
                }
                &&& detail.same_vendor_count == (match detail.record@.vendor {
                    Some(vendor) => vendor_count(db@, vendor),
                    None => 0,
                })
            },
            None => storage::record_of(db@, tidy_mac(mac@)) is None,
        },
{
    let key = tidy_mac_text(mac);
    let record = match db.get(&key) {
        Some(rec) => rec.copied(),
        None => {
            return None;
        },
    };
    let ghost rows = device::rows_of(devices@);
    let mut current: Option<Device> = None;
    let mut i: usize = 0;
    assert(rows.take(0).len() == 0);
    while i < devices.len()
        invariant
            i <= devices@.len(),
            rows == device::rows_of(devices@),
            match current {
                Some(row) => first_row_of(rows.take(i as int), key@) == Some(row@),
                None => first_row_of(rows.take(i as int), key@) is None,
            },
        decreases devices@.len() - i,
    {
        proof {
            assert(rows.take(i + 1).drop_last() =~= rows.take(i as int));
            assert(rows.take(i + 1).last() == devices@[i as int]@);
        }
        if current.is_none() && row_is_of(&devices[i], &key) {
            current = Some(devices[i].copied());
        }
        i = i + 1;
    }
    assert(rows.take(i as int) =~= rows);
    let mut count: usize = 0;
    match &record.vendor {
        Some(vendor) => {
            let mut k: usize = 0;
            assert(db@.take(0).len() == 0);
            while k < db.devices.len()
                invariant
                    k <= db.devices@.len(),
                    count == vendor_count(db@.take(k as int), vendor@),
                    count <= k,
                decreases db.devices@.len() - k,
            {
                proof {
                    assert(db@.take(k + 1).drop_last() =~= db@.take(k as int));
                    assert(db@.take(k + 1).last().1 == db.devices@[k as int].1@);
                }
                if let Some(v) = &db.devices[k].1.vendor {
                    if *v == *vendor {
                        count = count + 1;
                    }
                }
                k = k + 1;
            }
            assert(db@.take(k as int) =~= db@);
        },
        None => {},
    }
    Some(DeviceDetail { mac: key, record, current, same_vendor_count: count })
}

/// A label that was set is what the device's record shows afterwards; its
/// notes and everything else stay, and so do the records of other devices.
pub proof fn law_label_read_back(
    db: Seq<(Seq<char>, storage::RecordModel)>,
    mac: Seq<char>,
    label: Option<Seq<char>>,
    now: u64,
    other: Seq<char>,
)
    requires
        storage::distinct(db),
    ensures
        storage::record_of(labelled(db, mac, label, now), mac) == Some(
            storage::RecordModel { label, ..known_or_blank(db, mac, now) },
        ),
        other != mac ==> storage::record_of(labelled(db, mac, label, now), other)
            == storage::record_of(db, other),
{
    storage::law_record_read_back(
        db,
        mac,
        storage::RecordModel { label, ..known_or_blank(db, mac, now) },
    );
}

/// Notes that were set are what the device's record shows afterwards; its
/// label and everything else stay, and so do the records of other devices.
pub proof fn law_notes_read_back(
    db: Seq<(Seq<char>, storage::RecordModel)>,
    mac: Seq<char>,
    notes: Option<Seq<char>>,
    now: u64,
    other: Seq<char>,
)
    requires
        storage::distinct(db),
    ensures
        storage::record_of(noted(db, mac, notes, now), mac) == Some(
            storage::RecordModel { notes, ..known_or_blank(db, mac, now) },
        ),
        other != mac ==> storage::record_of(noted(db, mac, notes, now), other)
            == storage::record_of(db, other),
{
    storage::law_record_read_back(
        db,
        mac,
        storage::RecordModel { notes, ..known_or_blank(db, mac, now) },
    );
}

/// A label given to a known device is still there after any scan.
pub proof fn law_label_survives_scan(
    db: Seq<(Seq<char>, storage::RecordModel)>,
    mac: Seq<char>,
    label: Option<Seq<char>>,
    set_at: u64,
    live: Seq<device::DeviceModel>,
    now: u64,
)
    requires
        storage::distinct(db),
        device::countable(labelled(db, mac, label, set_at), live),
        live.len() <= u64::MAX,
    ensures
        storage::record_of(
            device::history_after(labelled(db, mac, label, set_at), live, now),
            mac,
        ) matches Some(rec) && rec.label == label,
{
    let rec = storage::RecordModel { label, ..known_or_blank(db, mac, set_at) };
    storage::law_record_read_back(db, mac, rec);
    device::law_scan_forgets_nothing(labelled(db, mac, label, set_at), live, now, mac);
}

/// Setting the label of a known device replaces the label in its record and
/// nothing else; so does setting its notes.
pub proof fn law_known_record_keeps_the_rest(
    db: Seq<(Seq<char>, storage::RecordModel)>,
    mac: Seq<char>,
    text: Option<Seq<char>>,
    now: u64,
)
    requires
        storage::distinct(db),
        storage::record_of(db, mac) is Some,
    ensures
        storage::record_of(labelled(db, mac, text, now), mac) == Some(
            storage::RecordModel { label: text, ..storage::record_of(db, mac)->0 },
        ),
        storage::record_of(noted(db, mac, text, now), mac) == Some(
            storage::RecordModel { notes: text, ..storage::record_of(db, mac)->0 },
        ),
{
    law_label_read_back(db, mac, text, now, mac);
    law_notes_read_back(db, mac, text, now, mac);
}

/// A device that was never seen gets a record that holds the label or the notes
/// and the present time, and nothing else.
pub proof fn law_unknown_record_is_blank(
    db: Seq<(Seq<char>, storage::RecordModel)>,
    mac: Seq<char>,
    text: Option<Seq<char>>,
    now: u64,
)
    requires
        storage::distinct(db),
        storage::record_of(db, mac) is None,
    ensures
        storage::record_of(labelled(db, mac, text, now), mac) matches Some(rec) && {
            &&& rec.label == text
            &&& rec.notes is None
            &&& rec.first_seen == now
            &&& rec.last_seen == now
            &&& rec.times_seen == 0
            &&& rec.ip.len() == 0
            &&& rec.vendor is None
            &&& rec.hostname is None
            &&& rec.os_guess is None
            &&& rec.presence_events.len() == 0
        },
        storage::record_of(noted(db, mac, text, now), mac) matches Some(rec) && {
            &&& rec.notes == text
            &&& rec.label is None
            &&& rec.first_seen == now
            &&& rec.last_seen == now
            &&& rec.times_seen == 0
            &&& rec.ip.len() == 0
            &&& rec.vendor is None
            &&& rec.hostname is None
            &&& rec.os_guess is None
            &&& rec.presence_events.len() == 0
        },
{
    law_label_read_back(db, mac, text, now, mac);
    law_notes_read_back(db, mac, text, now, mac);
}

/// Label and notes do not touch each other: whichever is set last, the record
/// of a device shows both.
pub proof fn law_label_and_notes_both_stay(
    db: Seq<(Seq<char>, storage::RecordModel)>,
    mac: Seq<char>,
    label: Option<Seq<char>>,
    notes: Option<Seq<char>>,
    first: u64,
    then: u64,
)
    requires
        storage::distinct(db),
    ensures
        storage::record_of(noted(labelled(db, mac, label, first), mac, notes, then), mac) matches Some(
            rec,
        ) && rec.label == label && rec.notes == notes,
        storage::record_of(labelled(noted(db, mac, notes, first), mac, label, then), mac) matches Some(
            rec,
        ) && rec.label == label && rec.notes == notes,
{
    let one = storage::RecordModel { label, ..known_or_blank(db, mac, first) };
    let two = storage::RecordModel { notes, ..known_or_blank(db, mac, first) };
    storage::law_record_read_back(db, mac, one);
    storage::law_record_read_back(db, mac, two);
    law_known_record_keeps_the_rest(labelled(db, mac, label, first), mac, notes, then);
    law_known_record_keeps_the_rest(noted(db, mac, notes, first), mac, label, then);
}

/// The rows of the device get the label, or the notes, in whatever case their
/// address is written; nothing else of them changes, and no other row does.
pub proof fn law_rows_follow(
    rows: Seq<device::DeviceModel>,
    mac: Seq<char>,
    text: Option<Seq<char>>,
    i: int,
)
    requires
        0 <= i < rows.len(),
    ensures
        rows_labelled(rows, mac, text).len() == rows.len(),
        rows_noted(rows, mac, text).len() == rows.len(),
        rows[i].mac is Some && numerals::lowered(rows[i].mac->0) == numerals::lowered(mac) ==> {
            &&& rows_labelled(rows, mac, text)[i] == (device::DeviceModel { label: text, ..rows[i] })
            &&& rows_noted(rows, mac, text)[i] == (device::DeviceModel { notes: text, ..rows[i] })
        },
        !(rows[i].mac is Some && numerals::lowered(rows[i].mac->0) == numerals::lowered(mac)) ==> {
            &&& rows_labelled(rows, mac, text)[i] == rows[i]
            &&& rows_noted(rows, mac, text)[i] == rows[i]
        },
{
}

/// What is kept of a label, a note or an address: all of it but the white space
/// around it. Nothing is kept where there is nothing else.
pub proof fn law_notes_are_tidied(before: Seq<char>, s: Seq<char>, after: Seq<char>)
    requires
        forall|k: int| 0 <= k < before.len() ==> text::is_space(#[trigger] before[k]),
        forall|k: int| 0 <= k < after.len() ==> text::is_space(#[trigger] after[k]),
        s.len() > 0,
        !text::is_space(s[0]),
        !text::is_space(s[s.len() - 1]),
    ensures
        tidy_note(Some(before + s + after)) == Some(s),
        tidy_mac(before + s + after) == numerals::lowered(s),
        tidy_note(Some(before)) is None,
        tidy_mac(before).len() == 0,
        tidy_note(None) is None,
{
    text::law_trim_around(before, s, after);
    text::law_trim(before);
    if text::trimmed(before).len() > 0 {
        let (i, j) = choose|i: int, j: int|
            {
                &&& 0 <= i <= j <= before.len()
                &&& text::trimmed(before) == #[trigger] before.subrange(i, j)
                &&& forall|k: int| 0 <= k < i ==> text::is_space(#[trigger] before[k])
                &&& forall|k: int| j <= k < before.len() ==> text::is_space(#[trigger] before[k])
                &&& i < j ==> !text::is_space(before[i]) && !text::is_space(before[j - 1])
            };
        assert(text::is_space(before[i]));
    }
}

/// The page of a device shows the first of its rows.
pub proof fn law_first_row_is_shown(rows: Seq<device::DeviceModel>, mac: Seq<char>, i: int)
    requires
        0 <= i < rows.len(),
        rows[i].mac matches Some(m) && numerals::lowered(m) == numerals::lowered(mac),
        forall|j: int|
            0 <= j < i ==> !((#[trigger] rows[j]).mac matches Some(m) && numerals::lowered(m)
                == numerals::lowered(mac)),
    ensures
        first_row_of(rows, mac) == Some(rows[i]),
    decreases rows.len(),
{
    let front = rows.drop_last();
    if i < front.len() {
        assert(front[i] == rows[i]);
        assert forall|j: int| 0 <= j < i implies !((#[trigger] front[j]).mac matches Some(m)
            && numerals::lowered(m) == numerals::lowered(mac)) by {
            assert(front[j] == rows[j]);
        }
        law_first_row_is_shown(front, mac, i);
    } else {
        lemma_no_row(front, mac);
    }
}

proof fn lemma_no_row(rows: Seq<device::DeviceModel>, mac: Seq<char>)
    requires
        forall|j: int| 0 <= j < rows.len() ==> !is_of(#[trigger] rows[j], mac),
    ensures
        first_row_of(rows, mac) is None,
    decreases rows.len(),
{
    if rows.len() > 0 {
        assert(!is_of(rows[rows.len() - 1], mac));
        lemma_no_row(rows.drop_last(), mac);
    }
}

/// A device without a row has none on its page.
pub proof fn law_absent_row_is_not_shown(rows: Seq<device::DeviceModel>, mac: Seq<char>)
    requires
        forall|j: int|
            0 <= j < rows.len() ==> !((#[trigger] rows[j]).mac matches Some(m) && numerals::lowered(m)
                == numerals::lowered(mac)),
    ensures
        first_row_of(rows, mac) is None,
{
    lemma_no_row(rows, mac);
}

/// The page of a device counts every entry of its vendor once.
pub proof fn law_vendors_are_counted(
    db: Seq<(Seq<char>, storage::RecordModel)>,
    entry: (Seq<char>, storage::RecordModel),
    vendor: Seq<char>,
)
    ensures
        vendor_count(Seq::<(Seq<char>, storage::RecordModel)>::empty(), vendor) == 0,
        vendor_count(db.push(entry), vendor) == vendor_count(db, vendor) + (if entry.1.vendor
            == Some(vendor) {
            1int
        } else {
            0int
        }),
{
    assert(db.push(entry).drop_last() =~= db);
}

}
