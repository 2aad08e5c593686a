//! The rows of the dashboard, and how a scan is merged with what is remembered.

use crate::numerals;
use crate::numerals::push_decimal;
use crate::storage;
use crate::storage::{copy_text, Database, DeviceRecord};
use crate::text::{chars_of, push_all, string_of};
use vstd::prelude::*;

verus! {

/// A device counts as new for this long after it was first seen.
pub const NEW_WINDOW_SECS: u64 = 86400;

/// A device that was not seen for longer than this is not listed any more.
pub const OFFLINE_WINDOW_SECS: u64 = 604800;

/// One row of the dashboard.
#[derive(Clone, Debug)]
pub struct Device {
    pub ip: String,
    pub mac: Option<String>,
    pub vendor: Option<String>,
    pub hostname: Option<String>,
    pub title: Option<String>,
    pub label: Option<String>,
    pub notes: Option<String>,
    pub open_ports: Vec<u16>,
    pub rtt_ms: Option<u32>,
    pub ttl: Option<u8>,
    pub os_guess: Option<String>,
    pub sources: Vec<String>,
    pub last_seen: String,
    pub first_seen_epoch: Option<u64>,
    pub last_seen_epoch: Option<u64>,
    pub times_seen: u64,
    pub online: bool,
    pub is_new: bool,
}

/// The contents of a [`Device`].
pub struct DeviceModel {
    pub ip: Seq<char>,
    pub mac: Option<Seq<char>>,
    pub vendor: Option<Seq<char>>,
    pub hostname: Option<Seq<char>>,
    pub title: Option<Seq<char>>,
    pub label: Option<Seq<char>>,
    pub notes: Option<Seq<char>>,
    pub open_ports: Seq<u16>,
    pub rtt_ms: Option<u32>,
    pub ttl: Option<u8>,
    pub os_guess: Option<Seq<char>>,
    pub sources: Seq<Seq<char>>,
    pub last_seen: Seq<char>,
    pub first_seen_epoch: Option<u64>,
    pub last_seen_epoch: Option<u64>,
    pub times_seen: u64,
    pub online: bool,
    pub is_new: bool,
}

/// What each string holds.
pub open spec fn texts_of(v: Seq<String>) -> Seq<Seq<char>> {
    v.map_values(|s: String| s@)
}

impl View for Device {
    type V = DeviceModel;

    open spec fn view(&self) -> DeviceModel {
        DeviceModel {
            ip: self.ip@,
            mac: storage::text_of(self.mac),
            vendor: storage::text_of(self.vendor),
            hostname: storage::text_of(self.hostname),
            title: storage::text_of(self.title),
            label: storage::text_of(self.label),
            notes: storage::text_of(self.notes),
            open_ports: self.open_ports@,
            rtt_ms: self.rtt_ms,
            ttl: self.ttl,
            os_guess: storage::text_of(self.os_guess),
            sources: texts_of(self.sources@),
            last_seen: self.last_seen@,
            first_seen_epoch: self.first_seen_epoch,
            last_seen_epoch: self.last_seen_epoch,
            times_seen: self.times_seen,
            online: self.online,
            is_new: self.is_new,
        }
    }
}

/// What each row holds.
pub open spec fn rows_of(v: Seq<Device>) -> Seq<DeviceModel> {
    v.map_values(|d: Device| d@)
}

/// How long ago something was, in the largest unit that fits.
pub open spec fn ago_text(seconds: nat) -> Seq<char> {
    if seconds < 60 {
        numerals::decimal(seconds) + "s lalu"@
    } else if seconds < 3600 {
        numerals::decimal(seconds / 60) + "m lalu"@
    } else if seconds < 86400 {
        numerals::decimal(seconds / 3600) + "j lalu"@
    } else {
        numerals::decimal(seconds / 86400) + "h lalu"@
    }
}

/// Says how long ago something was.
pub fn format_ago(seconds: u64) -> (res: String)
    ensures
        res@ == ago_text(seconds as nat),
{
    let mut out: Vec<char> = Vec::new();
    if seconds < 60 {
        push_decimal(&mut out, seconds);
        push_all(&mut out, &chars_of("s lalu"));
    } else if seconds < 3600 {
        push_decimal(&mut out, seconds / 60);
        push_all(&mut out, &chars_of("m lalu"));
    } else if seconds < 86400 {
        push_decimal(&mut out, seconds / 3600);
        push_all(&mut out, &chars_of("j lalu"));
    } else {
        push_decimal(&mut out, seconds / 86400);
        push_all(&mut out, &chars_of("h lalu"));
    }
    assert(out@ =~= ago_text(seconds as nat));
    string_of(&out)
}

/// `fresh` where there is something fresh, else `known`.
pub open spec fn or_known(fresh: Option<Seq<char>>, known: Option<Seq<char>>) -> Option<Seq<char>> {
    if fresh is Some {
        fresh
    } else {
        known
    }
}

/// `a - b`, zero where `b` is larger.
pub open spec fn minus(a: u64, b: u64) -> int {
    if a < b {
        0
    } else {
        a - b
    }
}

/// The record of a device that is seen for the first time.
pub open spec fn first_record(d: DeviceModel, now: u64) -> storage::RecordModel {
    storage::RecordModel {
        first_seen: now,
        last_seen: now,
        times_seen: 0,
        ip: d.ip,
        vendor: d.vendor,
        hostname: d.hostname,
        label: None,
        notes: None,
        os_guess: None,
        presence_events: Seq::<storage::PresenceEvent>::empty(),
    }
}

/// The record of a device after the row `d` was seen: counted once more, with
/// its present address, and with every fact that the row brings.
pub open spec fn seen_record(
    prior: Option<storage::RecordModel>,
    d: DeviceModel,
    now: u64,
) -> storage::RecordModel {
    let base = match prior {
        Some(rec) => rec,
        None => first_record(d, now),
    };
    storage::RecordModel {
        last_seen: now,
        times_seen: (base.times_seen + 1) as u64,
        ip: d.ip,
        vendor: or_known(d.vendor, base.vendor),
        hostname: or_known(d.hostname, base.hostname),
        os_guess: or_known(d.os_guess, base.os_guess),
        presence_events: storage::observed(base.presence_events, now, true),
        ..base
    }
}

/// The row of a device that is online, with what its record adds.
pub open spec fn online_row(
    d: DeviceModel,
    rec: Option<storage::RecordModel>,
    now: u64,
) -> DeviceModel {
    let seen = DeviceModel { online: true, last_seen_epoch: Some(now), ..d };
    match rec {
        Some(rec) => DeviceModel {
            os_guess: rec.os_guess,
            first_seen_epoch: Some(rec.first_seen),
            times_seen: rec.times_seen,
            is_new: minus(now, rec.first_seen) < NEW_WINDOW_SECS,
            label: rec.label,
            notes: rec.notes,
            ..seen
        },
        None => seen,
    }
}

/// The history after one row was seen. A row without a hardware address leaves
/// no trace.
pub open spec fn row_recorded(
    db: Seq<(Seq<char>, storage::RecordModel)>,
    d: DeviceModel,
    now: u64,
) -> Seq<(Seq<char>, storage::RecordModel)> {
    match d.mac {
        Some(mac) => storage::with_record(
            db,
            mac,
            seen_record(storage::record_of(db, mac), d, now),
        ),
        None => db,
    }
}

/// The history after the rows were seen, one after another.
pub open spec fn rows_recorded(
    db: Seq<(Seq<char>, storage::RecordModel)>,
    live: Seq<DeviceModel>,
    now: u64,
) -> Seq<(Seq<char>, storage::RecordModel)>
    decreases live.len(),
{
    if live.len() == 0 {
        db
    } else {
        row_recorded(rows_recorded(db, live.drop_last(), now), live.last(), now)
    }
}

/// The record of a row's device in a history.
pub open spec fn row_record(
    db: Seq<(Seq<char>, storage::RecordModel)>,
    d: DeviceModel,
) -> Option<storage::RecordModel> {
    match d.mac {
        Some(mac) => storage::record_of(db, mac),
        None => None,
    }
}

/// The rows that are online, each with its record as it was after that row.
pub open spec fn online_rows(
    db: Seq<(Seq<char>, storage::RecordModel)>,
    live: Seq<DeviceModel>,
    now: u64,
) -> Seq<DeviceModel> {
    Seq::new(
        live.len(),
        |i: int|
            online_row(
                live[i],
                row_record(rows_recorded(db, live.take(i + 1), now), live[i]),
                now,
            ),
    )
}

/// Whether a row has the hardware address `mac`.
pub open spec fn is_live(live: Seq<DeviceModel>, mac: Seq<char>) -> bool {
    exists|i: int| 0 <= i < live.len() && (#[trigger] live[i]).mac == Some(mac)
}

/// An entry of the history after the scan: an absent device is noted as
/// offline.
pub open spec fn absence_noted(
    entry: (Seq<char>, storage::RecordModel),
    live: Seq<DeviceModel>,
    now: u64,
) -> (Seq<char>, storage::RecordModel) {
    if is_live(live, entry.0) {
        entry
    } else {
        (
            entry.0,
            storage::RecordModel {
                presence_events: storage::observed(entry.1.presence_events, now, false),
                ..entry.1
            },
        )
    }
}

/// The history after a scan that found the rows `live`.
pub open spec fn history_after(
    db: Seq<(Seq<char>, storage::RecordModel)>,
    live: Seq<DeviceModel>,
    now: u64,
) -> Seq<(Seq<char>, storage::RecordModel)> {
    rows_recorded(db, live, now).map_values(
        |e: (Seq<char>, storage::RecordModel)| absence_noted(e, live, now),
    )
}

/// The row of a device that is offline.
pub open spec fn offline_row(entry: (Seq<char>, storage::RecordModel), now: u64) -> DeviceModel {
    let rec = entry.1;
    DeviceModel {
        ip: rec.ip,
        mac: Some(entry.0),
        vendor: rec.vendor,
        hostname: rec.hostname,
        title: None,
        label: rec.label,
        notes: rec.notes,
        open_ports: Seq::<u16>::empty(),
        rtt_ms: None,
        ttl: None,
        os_guess: rec.os_guess,
        sources: Seq::<Seq<char>>::empty(),
        last_seen: ago_text(minus(now, rec.last_seen) as nat),
        first_seen_epoch: Some(rec.first_seen),
        last_seen_epoch: Some(rec.last_seen),
        times_seen: rec.times_seen,
        online: false,
        is_new: false,
    }
}

/// Whether an entry is listed as an offline device: it is absent, and was seen
/// not too long ago.
pub open spec fn listed_offline(
    entry: (Seq<char>, storage::RecordModel),
    live: Seq<DeviceModel>,
    now: u64,
) -> bool {
    !is_live(live, entry.0) && minus(now, entry.1.last_seen) <= OFFLINE_WINDOW_SECS
}

/// The rows of the devices that are offline, in the order of the history.
pub open spec fn offline_rows(
    db: Seq<(Seq<char>, storage::RecordModel)>,
    live: Seq<DeviceModel>,
    now: u64,
) -> Seq<DeviceModel>
    decreases db.len(),
{
    if db.len() == 0 {
        Seq::<DeviceModel>::empty()
    } else {
        let before = offline_rows(db.drop_last(), live, now);
        if listed_offline(db.last(), live, now) {
            before.push(offline_row(db.last(), now))
        } else {
            before
        }
    }
}

/// How many of the rows have the hardware address `mac`.
pub open spec fn sightings(live: Seq<DeviceModel>, mac: Seq<char>) -> nat
    decreases live.len(),
{
    if live.len() == 0 {
        0
    } else {
        sightings(live.drop_first(), mac) + (if live[0].mac == Some(mac) {
            1nat
        } else {
            0
        })
    }
}

/// Whether every device can be counted once more for each of its rows.
pub open spec fn countable(
    db: Seq<(Seq<char>, storage::RecordModel)>,
    live: Seq<DeviceModel>,
) -> bool {
    forall|k: int|
        0 <= k < db.len() ==> (#[trigger] db[k]).1.times_seen + sightings(live, db[k].0)
            <= u64::MAX
}

proof fn lemma_sightings_bound(live: Seq<DeviceModel>, mac: Seq<char>)
    ensures
        sightings(live, mac) <= live.len(),
    decreases live.len(),
{
    if live.len() > 0 {
        lemma_sightings_bound(live.drop_first(), mac);
    }
}

fn saturating_minus(a: u64, b: u64) -> (res: u64)
    ensures
        res == minus(a, b),
{
    if a < b {
        0
    } else {
        a - b
    }
}

fn prefer_fresh(fresh: &Option<String>, known: &Option<String>) -> (res: Option<String>)
    ensures
        storage::text_of(res) == or_known(storage::text_of(*fresh), storage::text_of(*known)),
{
    match fresh {
        Some(s) => Some(s.clone()),
        None => copy_text(known),
    }
}

/// A copy of each string.
pub fn copy_texts(v: &Vec<String>) -> (res: Vec<String>)
    ensures
        texts_of(res@) == texts_of(v@),
{
    let mut out: Vec<String> = Vec::new();
    let mut i: usize = 0;
    while i < v.len()
        invariant
            i <= v@.len(),
            texts_of(out@) == texts_of(v@.take(i as int)),
        decreases v@.len() - i,
    {
        let ghost before = out@;
        out.push(v[i].clone());
        proof {
            assert(texts_of(out@) =~= texts_of(before).push(v@[i as int]@));
            assert(texts_of(v@.take(i + 1)) =~= texts_of(v@.take(i as int)).push(v@[i as int]@));
        }
        i = i + 1;
    }
    assert(v@.take(i as int) =~= v@);
    out
}

fn note_sighting(prior: Option<&DeviceRecord>, d: &Device, now: u64) -> (res: DeviceRecord)
    requires
        prior matches Some(rec) ==> rec.times_seen < u64::MAX,
    ensures
        res@ == seen_record(
            match prior {
                Some(rec) => Some(rec@),
                None => None,
            },
            d@,
            now,
        ),
{
    let mut rec = match prior {
        Some(rec) => rec.copied(),
        None => DeviceRecord {
            first_seen: now,
            last_seen: now,
            times_seen: 0,
            ip: d.ip.clone(),
            vendor: copy_text(&d.vendor),
            hostname: copy_text(&d.hostname),
            label: None,
            notes: None,
            os_guess: None,
            presence_events: Vec::new(),
        },
    };
    rec.last_seen = now;
    rec.times_seen = rec.times_seen + 1;
    rec.ip = d.ip.clone();
    rec.vendor = prefer_fresh(&d.vendor, &rec.vendor);
    rec.hostname = prefer_fresh(&d.hostname, &rec.hostname);
    rec.os_guess = prefer_fresh(&d.os_guess, &rec.os_guess);
    rec.push_presence(now, true);
    rec
}

impl Device {
    /// A copy of the row.
    pub fn copied(&self) -> (res: Device)
        ensures
            res@ == self@,
    {
        let open_ports = self.open_ports.clone();
        assert(open_ports@ =~= self.open_ports@);
        Device {
            ip: self.ip.clone(),
            mac: copy_text(&self.mac),
            vendor: copy_text(&self.vendor),
            hostname: copy_text(&self.hostname),
            title: copy_text(&self.title),
            label: copy_text(&self.label),
            notes: copy_text(&self.notes),
            open_ports,
            rtt_ms: self.rtt_ms,
            ttl: self.ttl,
            os_guess: copy_text(&self.os_guess),
            sources: copy_texts(&self.sources),
            last_seen: self.last_seen.clone(),
            first_seen_epoch: self.first_seen_epoch,
            last_seen_epoch: self.last_seen_epoch,
            times_seen: self.times_seen,
            online: self.online,
            is_new: self.is_new,
        }
    }
}

fn show_online(d: &Device, rec: Option<&DeviceRecord>, now: u64) -> (res: Device)
    ensures
        res@ == online_row(
            d@,
            match rec {
                Some(rec) => Some(rec@),
                None => None,
            },
            now,
        ),
{
    let mut row = d.copied();
    row.online = true;
    row.last_seen_epoch = Some(now);
    match rec {
        Some(rec) => {
            row.os_guess = copy_text(&rec.os_guess);
            row.first_seen_epoch = Some(rec.first_seen);
            row.times_seen = rec.times_seen;
            row.is_new = saturating_minus(now, rec.first_seen) < NEW_WINDOW_SECS;
            row.label = copy_text(&rec.label);
            row.notes = copy_text(&rec.notes);
        },
        None => {},
    }
    row
}

fn show_offline(mac: &String, rec: &DeviceRecord, now: u64) -> (res: Device)
    ensures
        res@ == offline_row((mac@, rec@), now),
{
    let res = Device {
        ip: rec.ip.clone(),
        mac: Some(mac.clone()),
        vendor: copy_text(&rec.vendor),
        hostname: copy_text(&rec.hostname),
        title: None,
        label: copy_text(&rec.label),
        notes: copy_text(&rec.notes),
        open_ports: Vec::new(),
        rtt_ms: None,
        ttl: None,
        os_guess: copy_text(&rec.os_guess),
        sources: Vec::new(),
        last_seen: format_ago(saturating_minus(now, rec.last_seen)),
        first_seen_epoch: Some(rec.first_seen),
        last_seen_epoch: Some(rec.last_seen),
        times_seen: rec.times_seen,
        online: false,
        is_new: false,
    };
    assert(res@.sources =~= Seq::<Seq<char>>::empty());
    res
}

fn has_mac(live: &Vec<Device>, mac: &String) -> (res: bool)
    ensures
        res == is_live(rows_of(live@), mac@),
{
    let mut i: usize = 0;
    while i < live.len()
        invariant
            i <= live@.len(),
            forall|j: int| 0 <= j < i ==> (#[trigger] rows_of(live@)[j]).mac != Some(mac@),
        decreases live@.len() - i,
    {
        assert(rows_of(live@)[i as int] == live@[i as int]@);
        if let Some(m) = &live[i].mac {
            if *m == *mac {
                return true;
            }
        }
        i = i + 1;
    }
    false
}

proof fn lemma_countable_step(
    db: Seq<(Seq<char>, storage::RecordModel)>,
    left: Seq<DeviceModel>,
    now: u64,
)
    requires
        left.len() > 0,
        left.len() <= u64::MAX,
        countable(db, left),
    ensures
        countable(row_recorded(db, left[0], now), left.drop_first()),
        left[0].mac matches Some(mac) ==> (storage::record_of(db, mac) matches Some(rec)
            ==> rec.times_seen < u64::MAX),
{
    let rest = left.drop_first();
    let after = row_recorded(db, left[0], now);
    match left[0].mac {
        Some(mac) => {
            storage::lemma_slot(db, mac);
            lemma_sightings_bound(rest, mac);
            assert forall|k: int| 0 <= k < after.len() implies (#[trigger] after[k]).1.times_seen
                + sightings(rest, after[k].0) <= u64::MAX by {
                if k < db.len() {
                    assert(db[k].1.times_seen + sightings(left, db[k].0) <= u64::MAX);
                }
            }
        },
        None => {
            assert forall|k: int| 0 <= k < after.len() implies (#[trigger] after[k]).1.times_seen
                + sightings(rest, after[k].0) <= u64::MAX by {
                assert(db[k].1.times_seen + sightings(left, db[k].0) <= u64::MAX);
            }
        },
    }
}

fn count_sightings(live: &Vec<Device>, mac: &String) -> (res: usize)
    ensures
        res == sightings(rows_of(live@), mac@),
        res <= live@.len(),
{
    let ghost rows = rows_of(live@);
    let mut count: usize = 0;
    let n = live.len();
    let mut i: usize = n;
    assert(rows.skip(i as int).len() == 0);
    while i > 0
        invariant
            i <= live@.len(),
            rows == rows_of(live@),
            count == sightings(rows.skip(i as int), mac@),
            count + i <= n,
            n == live@.len(),
        decreases i,
    {
        i = i - 1;
        proof {
            assert(rows[i as int] == live@[i as int]@);
            assert(rows.skip(i as int).drop_first() =~= rows.skip(i + 1));
            assert(rows.skip(i as int)[0] == rows[i as int]);
        }
        if let Some(m) = &live[i].mac {
            if *m == *mac {
                count = count + 1;
            }
        }
    }
    assert(rows.skip(0) =~= rows);
    count
}

/// Checks that every device can be counted once more for each of its rows.
pub fn is_countable(db: &Database, live: &Vec<Device>) -> (res: bool)
    ensures
        res == countable(db@, rows_of(live@)),
{
    let mut k: usize = 0;
    while k < db.devices.len()
        invariant
            k <= db.devices@.len(),
            forall|j: int|
                0 <= j < k ==> (#[trigger] db@[j]).1.times_seen + sightings(
                    rows_of(live@),
                    db@[j].0,
                ) <= u64::MAX,
        decreases db.devices@.len() - k,
    {
        let seen = db.devices[k].1.times_seen;
        let more = count_sightings(live, &db.devices[k].0) as u64;
        assert(db@[k as int].1.times_seen == seen);
        if more > 18446744073709551615 - seen {
            return false;
        }
        k = k + 1;
    }
    true
}

/// Merges the rows that a scan found with the history: every row is recorded
/// and gets what is remembered of it, absent devices are noted as offline, and
/// those that were seen not too long ago are listed behind the rows.
pub fn merge_with_history(live: Vec<Device>, db: &mut Database, now: u64) -> (res: Vec<Device>)
    requires
        old(db).wf(),
        countable(old(db)@, rows_of(live@)),
    ensures
        final(db).wf(),
        final(db)@ == history_after(old(db)@, rows_of(live@), now),
        rows_of(res@) == online_rows(old(db)@, rows_of(live@), now) + offline_rows(
            final(db)@,
            rows_of(live@),
            now,
        ),
{
    let ghost rows = rows_of(live@);
    let ghost db0 = db@;
    let ghost online = online_rows(db0, rows, now);
    let mut out: Vec<Device> = Vec::new();
    let mut i: usize = 0;
    proof {
        assert(rows.take(0).len() == 0);
        assert(rows.skip(0) =~= rows);
        assert(rows_of(out@) =~= online.take(0));
    }
    while i < live.len()
        invariant
            i <= live@.len(),
            rows == rows_of(live@),
            online == online_rows(db0, rows, now),
            db.wf(),
            db@ == rows_recorded(db0, rows.take(i as int), now),
            rows_of(out@) == online.take(i as int),
            countable(db@, rows.skip(i as int)),
        decreases live@.len() - i,
    {
        let n = live.len();
        let d = &live[i];
        let ghost before = db@;
        let ghost out0 = out@;
        proof {
            assert(rows[i as int] == d@);
            assert(rows.take(i + 1).drop_last() =~= rows.take(i as int));
            assert(rows.take(i + 1).last() == d@);
            assert(rows.skip(i as int)[0] == d@);
            assert(rows.skip(i as int).drop_first() =~= rows.skip(i + 1));
            assert(rows.len() == n);
            lemma_countable_step(before, rows.skip(i as int), now);
        }
        match &d.mac {
            Some(mac) => {
                let rec = note_sighting(db.get(mac), d, now);
                let ghost value = rec@;
                out.push(show_online(d, Some(&rec), now));
                proof {
                    storage::law_record_read_back(before, mac@, value);
                }
                db.put(mac.clone(), rec);
            },
            None => {
                out.push(show_online(d, None, now));
            },
        }
        proof {
            assert(db@ == rows_recorded(db0, rows.take(i + 1), now));
            assert(out@.last()@ == online[i as int]);
            assert(rows_of(out@) =~= rows_of(out0).push(out@.last()@));
            assert(online.take(i + 1) =~= online.take(i as int).push(online[i as int]));
        }
        i = i + 1;
    }
    proof {
        assert(rows.take(i as int) =~= rows);
        assert(online.take(i as int) =~= online);
    }
    let ghost recorded = db@;
    let ghost after = history_after(db0, rows, now);
    let mut j: usize = 0;
    while j < db.devices.len()
        invariant
            rows == rows_of(live@),
            recorded == rows_recorded(db0, rows, now),
            after == history_after(db0, rows, now),
            distinct_keys_kept(db@, recorded),
            j <= db.devices@.len(),
            forall|k: int| 0 <= k < j ==> (#[trigger] db@[k]) == after[k],
            forall|k: int| j <= k < db@.len() ==> (#[trigger] db@[k]) == recorded[k],
        decreases db.devices@.len() - j,
    {
        let ghost before = db@;
        proof {
            assert(before[j as int] == recorded[j as int]);
            assert(before[j as int] == (db.devices@[j as int].0@, db.devices@[j as int].1@));
            assert(after[j as int] == absence_noted(recorded[j as int], rows, now));
        }
        if !has_mac(&live, &db.devices[j].0) {
            let mac = db.devices[j].0.clone();
            let mut rec = db.devices[j].1.copied();
            rec.push_presence(now, false);
            let ghost entry = (mac@, rec@);
            db.devices[j] = (mac, rec);
            assert(db@ =~= before.update(j as int, entry));
        }
        assert(db@[j as int] == after[j as int]);
        j = j + 1;
    }
    proof {
        assert(db@ =~= after);
        assert forall|a: int, b: int| 0 <= a < b < db@.len() implies (#[trigger] db@[a]).0 != (
        #[trigger] db@[b]).0 by {
            assert(recorded[a].0 != recorded[b].0);
        }
    }
    let mut k: usize = 0;
    let ghost all = db@;
    proof {
        assert(all.take(0).len() == 0);
        assert(online + offline_rows(all.take(0), rows, now) =~= online);
    }
    while k < db.devices.len()
        invariant
            rows == rows_of(live@),
            all == db@,
            k <= db.devices@.len(),
            rows_of(out@) == online + offline_rows(all.take(k as int), rows, now),
        decreases db.devices@.len() - k,
    {
        let ghost out0 = out@;
        let ghost offline = offline_rows(all.take(k as int), rows, now);
        proof {
            assert(all[k as int] == (db.devices@[k as int].0@, db.devices@[k as int].1@));
            assert(all.take(k + 1).drop_last() =~= all.take(k as int));
            assert(all.take(k + 1).last() == all[k as int]);
        }
        let mac = &db.devices[k].0;
        let rec = &db.devices[k].1;
        if !has_mac(&live, mac) && saturating_minus(now, rec.last_seen) <= OFFLINE_WINDOW_SECS {
            out.push(show_offline(mac, rec, now));
            proof {
                let row = offline_row(all[k as int], now);
                assert(rows_of(out@) =~= rows_of(out0).push(row));
                assert((online + offline).push(row) =~= online + offline.push(row));
            }
        }
        k = k + 1;
    }
    assert(all.take(k as int) =~= all);
    out
}

/// Two histories name the same addresses in the same order, none twice.
spec fn distinct_keys_kept(
    db: Seq<(Seq<char>, storage::RecordModel)>,
    recorded: Seq<(Seq<char>, storage::RecordModel)>,
) -> bool {
    &&& db.len() == recorded.len()
    &&& storage::distinct(recorded)
    &&& forall|k: int| 0 <= k < db.len() ==> (#[trigger] db[k]).0 == recorded[k].0
}

proof fn lemma_sightings_back(live: Seq<DeviceModel>, mac: Seq<char>)
    requires
        live.len() > 0,
    ensures
        sightings(live, mac) == sightings(live.drop_last(), mac) + (if live.last().mac == Some(mac) {
            1nat
        } else {
            0
        }),
    decreases live.len(),
{
    if live.len() == 1 {
        reveal_with_fuel(sightings, 2);
        assert(live.drop_last().len() == 0);
        assert(live.drop_first().len() == 0);
    } else {
        lemma_sightings_back(live.drop_first(), mac);
        assert(live.drop_first().drop_last() =~= live.drop_last().drop_first());
        assert(live.drop_first().last() == live.last());
        assert(live.drop_last()[0] == live[0]);
    }
}

proof fn lemma_sightings_live(live: Seq<DeviceModel>, mac: Seq<char>)
    ensures
        is_live(live, mac) == (sightings(live, mac) > 0),
    decreases live.len(),
{
    if live.len() > 0 {
        lemma_sightings_back(live, mac);
        let front = live.drop_last();
        lemma_sightings_live(front, mac);
        if is_live(live, mac) {
            let i = choose|i: int| 0 <= i < live.len() && (#[trigger] live[i]).mac == Some(mac);
            if i < front.len() {
                assert(front[i].mac == Some(mac));
            }
        }
        if is_live(front, mac) {
            let i = choose|i: int| 0 <= i < front.len() && (#[trigger] front[i]).mac == Some(mac);
            assert(live[i].mac == Some(mac));
        }
        if live.last().mac == Some(mac) {
            assert(live[live.len() - 1].mac == Some(mac));
        }
    }
}

/// What recording a scan does to the record of one address.
spec fn recorded_well(
    old_rec: Option<storage::RecordModel>,
    new_rec: Option<storage::RecordModel>,
    seen: nat,
    now: u64,
) -> bool {
    &&& seen == 0 ==> new_rec == old_rec
    &&& old_rec is Some ==> new_rec is Some
    &&& old_rec matches Some(a) ==> (new_rec matches Some(b) ==> a.first_seen == b.first_seen
        && a.label == b.label && a.notes == b.notes && b.times_seen == a.times_seen + seen)
    &&& seen > 0 ==> (new_rec matches Some(b) && b.last_seen == now && storage::last_status(
        b.presence_events,
    ) == Some(true))
    &&& seen > 0 && old_rec is None ==> (new_rec matches Some(b) && b.first_seen == now
        && b.times_seen == seen && b.label is None && b.notes is None)
}

proof fn lemma_recorded(
    db: Seq<(Seq<char>, storage::RecordModel)>,
    live: Seq<DeviceModel>,
    now: u64,
    mac: Seq<char>,
)
    requires
        storage::distinct(db),
        match storage::record_of(db, mac) {
            Some(rec) => rec.times_seen + sightings(live, mac) <= u64::MAX,
            None => sightings(live, mac) <= u64::MAX,
        },
    ensures
        storage::distinct(rows_recorded(db, live, now)),
        recorded_well(
            storage::record_of(db, mac),
            storage::record_of(rows_recorded(db, live, now), mac),
            sightings(live, mac),
            now,
        ),
    decreases live.len(),
{
    if live.len() > 0 {
        let front = live.drop_last();
        let d = live.last();
        let before = rows_recorded(db, front, now);
        lemma_sightings_back(live, mac);
        lemma_recorded(db, front, now, mac);
        match d.mac {
            Some(m) => {
                let rec = seen_record(storage::record_of(before, m), d, now);
                storage::law_record_read_back(before, m, rec);
                let base = match storage::record_of(before, m) {
                    Some(rec) => rec,
                    None => first_record(d, now),
                };
                storage::law_observed_is_known(base.presence_events, now, true);
            },
            None => {},
        }
    }
}

proof fn lemma_countable_one(
    db: Seq<(Seq<char>, storage::RecordModel)>,
    live: Seq<DeviceModel>,
    mac: Seq<char>,
)
    requires
        countable(db, live),
        live.len() <= u64::MAX,
    ensures
        match storage::record_of(db, mac) {
            Some(rec) => rec.times_seen + sightings(live, mac) <= u64::MAX,
            None => sightings(live, mac) <= u64::MAX,
        },
{
    storage::lemma_slot(db, mac);
    lemma_sightings_bound(live, mac);
    match storage::slot(db, mac) {
        Some(i) => {
            assert(db[i].1.times_seen + sightings(live, db[i].0) <= u64::MAX);
        },
        None => {},
    }
}

/// A scan forgets nothing: a device that is known stays known, first seen when
/// it was first seen, with the label and the notes that it was given, and
/// counted once for each of its rows.
pub proof fn law_scan_forgets_nothing(
    db: Seq<(Seq<char>, storage::RecordModel)>,
    live: Seq<DeviceModel>,
    now: u64,
    mac: Seq<char>,
)
    requires
        storage::distinct(db),
        countable(db, live),
        live.len() <= u64::MAX,
        storage::record_of(db, mac) is Some,
    ensures
        storage::record_of(history_after(db, live, now), mac) matches Some(b) && {
            let a = storage::record_of(db, mac)->0;
            &&& b.first_seen == a.first_seen
            &&& b.label == a.label
            &&& b.notes == a.notes
            &&& b.times_seen == a.times_seen + sightings(live, mac)
        },
{
    lemma_countable_one(db, live, mac);
    lemma_recorded(db, live, now, mac);
    lemma_history_record(db, live, now, mac);
}

proof fn lemma_history_record(
    db: Seq<(Seq<char>, storage::RecordModel)>,
    live: Seq<DeviceModel>,
    now: u64,
    mac: Seq<char>,
)
    ensures
        storage::record_of(history_after(db, live, now), mac) == (match storage::record_of(
            rows_recorded(db, live, now),
            mac,
        ) {
            Some(rec) => Some(absence_noted((mac, rec), live, now).1),
            None => None,
        }),
{
    let recorded = rows_recorded(db, live, now);
    let after = history_after(db, live, now);
    storage::lemma_slot(recorded, mac);
    storage::lemma_slot_by_keys(recorded, after, mac);
}

/// After a scan the last known status of every device is what the scan found:
/// online with the present time where it has a row, else offline.
pub proof fn law_scan_decides_status(
    db: Seq<(Seq<char>, storage::RecordModel)>,
    live: Seq<DeviceModel>,
    now: u64,
    mac: Seq<char>,
)
    requires
        storage::distinct(db),
        countable(db, live),
        live.len() <= u64::MAX,
    ensures
        is_live(live, mac) ==> (storage::record_of(history_after(db, live, now), mac) matches Some(
            rec,
        ) && rec.last_seen == now && storage::last_status(rec.presence_events) == Some(true)),
        !is_live(live, mac) ==> (match storage::record_of(history_after(db, live, now), mac) {
            Some(rec) => storage::last_status(rec.presence_events) == Some(false)
                && (storage::record_of(db, mac) matches Some(old_rec) && rec.last_seen
                == old_rec.last_seen && rec.ip == old_rec.ip),
            None => storage::record_of(db, mac) is None,
        }),
{
    lemma_countable_one(db, live, mac);
    lemma_recorded(db, live, now, mac);
    lemma_history_record(db, live, now, mac);
    lemma_sightings_live(live, mac);
    match storage::record_of(rows_recorded(db, live, now), mac) {
        Some(rec) => {
            storage::law_observed_is_known(rec.presence_events, now, false);
        },
        None => {},
    }
}

/// The listing of offline devices is complete and holds no other device: a row
/// stands in it exactly for each entry that is absent and was seen not too
/// long ago.
pub proof fn law_offline_listing(
    db: Seq<(Seq<char>, storage::RecordModel)>,
    live: Seq<DeviceModel>,
    now: u64,
)
    ensures
        forall|k: int|
            0 <= k < db.len() && listed_offline(#[trigger] db[k], live, now) ==> offline_rows(
                db,
                live,
                now,
            ).contains(offline_row(db[k], now)),
        forall|i: int|
            0 <= i < offline_rows(db, live, now).len() ==> exists|k: int|
                0 <= k < db.len() && listed_offline(#[trigger] db[k], live, now)
                    && #[trigger] offline_rows(db, live, now)[i] == offline_row(db[k], now),
    decreases db.len(),
{
    if db.len() > 0 {
        let front = db.drop_last();
        let before = offline_rows(front, live, now);
        let all = offline_rows(db, live, now);
        law_offline_listing(front, live, now);
        assert forall|k: int|
            0 <= k < db.len() && listed_offline(
                #[trigger] db[k],
                live,
                now,
            ) implies all.contains(offline_row(db[k], now)) by {
            if k < front.len() {
                assert(front[k] == db[k]);
                let j = choose|j: int|
                    0 <= j < before.len() && before[j] == offline_row(db[k], now);
                assert(all[j] == before[j]);
            } else {
                assert(all[all.len() - 1] == offline_row(db[k], now));
            }
        }
        assert forall|i: int| 0 <= i < all.len() implies exists|k: int|
            0 <= k < db.len() && listed_offline(#[trigger] db[k], live, now)
                && #[trigger] all[i] == offline_row(db[k], now) by {
            if i < before.len() {
                assert(all[i] == before[i]);
                let k = choose|k: int|
                    0 <= k < front.len() && listed_offline(#[trigger] front[k], live, now)
                        && before[i] == offline_row(front[k], now);
                assert(db[k] == front[k]);
            } else {
                assert(listed_offline(db[db.len() - 1], live, now));
            }
        }
    }
}

/// Rows of other devices leave the record of a device alone.
proof fn lemma_others_leave_record(
    db: Seq<(Seq<char>, storage::RecordModel)>,
    live: Seq<DeviceModel>,
    now: u64,
    mac: Seq<char>,
    n: int,
)
    requires
        storage::distinct(db),
        0 <= n <= live.len(),
        forall|j: int| n <= j < live.len() ==> (#[trigger] live[j]).mac != Some(mac),
    ensures
        storage::distinct(rows_recorded(db, live, now)),
        storage::record_of(rows_recorded(db, live, now), mac) == storage::record_of(
            rows_recorded(db, live.take(n), now),
            mac,
        ),
    decreases live.len(),
{
    if n == live.len() {
        assert(live.take(n) =~= live);
    }
    if live.len() > 0 {
        let front = live.drop_last();
        let m = if n < live.len() {
            n
        } else {
            n - 1
        };
        assert forall|j: int| m <= j < front.len() implies (#[trigger] front[j]).mac != Some(
            mac,
        ) by {
            assert(front[j] == live[j]);
        }
        lemma_others_leave_record(db, front, now, mac, m);
        let before = rows_recorded(db, front, now);
        let d = live.last();
        match d.mac {
            Some(other) => {
                storage::law_record_read_back(
                    before,
                    other,
                    seen_record(storage::record_of(before, other), d, now),
                );
                if n < live.len() {
                    assert(live[live.len() - 1].mac != Some(mac));
                }
            },
            None => {},
        }
        if n < live.len() {
            assert(front.take(n) =~= live.take(n));
        }
    }
}

/// The record of a device with one row after that row was recorded.
proof fn lemma_one_row(
    db: Seq<(Seq<char>, storage::RecordModel)>,
    live: Seq<DeviceModel>,
    now: u64,
    mac: Seq<char>,
    i: int,
)
    requires
        storage::distinct(db),
        0 <= i < live.len(),
        live[i].mac == Some(mac),
        forall|j: int| 0 <= j < live.len() && j != i ==> (#[trigger] live[j]).mac != Some(mac),
    ensures
        storage::record_of(rows_recorded(db, live.take(i + 1), now), mac) == Some(
            seen_record(storage::record_of(db, mac), live[i], now),
        ),
        storage::record_of(history_after(db, live, now), mac) == Some(
            seen_record(storage::record_of(db, mac), live[i], now),
        ),
{
    lemma_others_leave_record(db, live, now, mac, i + 1);
    let upto = live.take(i + 1);
    let front = live.take(i);
    assert(upto.drop_last() =~= front);
    assert forall|j: int| 0 <= j < front.len() implies (#[trigger] front[j]).mac != Some(mac) by {
        assert(front[j] == live[j]);
    }
    lemma_others_leave_record(db, front, now, mac, 0);
    assert(front.take(0).len() == 0);
    storage::law_record_read_back(
        rows_recorded(db, front, now),
        mac,
        seen_record(storage::record_of(rows_recorded(db, front, now), mac), live[i], now),
    );
    assert(is_live(live, mac));
    lemma_history_record(db, live, now, mac);
}

/// What a scan makes of the record of a device that has one row in it. The
/// address is the row's. Name, vendor and system are the row's where it has
/// them, and else those recorded before. Label and notes stay. The device is
/// counted once more, and was last seen now.
pub proof fn law_scan_refreshes_record(
    db: Seq<(Seq<char>, storage::RecordModel)>,
    live: Seq<DeviceModel>,
    now: u64,
    mac: Seq<char>,
    i: int,
)
    requires
        storage::distinct(db),
        countable(db, live),
        0 <= i < live.len(),
        live[i].mac == Some(mac),
        forall|j: int| 0 <= j < live.len() && j != i ==> (#[trigger] live[j]).mac != Some(mac),
    ensures
        storage::record_of(history_after(db, live, now), mac) matches Some(rec) && {
            let row = live[i];
            &&& rec.ip == row.ip
            &&& rec.last_seen == now
            &&& row.hostname is Some ==> rec.hostname == row.hostname
            &&& row.vendor is Some ==> rec.vendor == row.vendor
            &&& row.os_guess is Some ==> rec.os_guess == row.os_guess
            &&& rec.presence_events.len() > 0
            &&& rec.presence_events[rec.presence_events.len() - 1].online
            &&& match storage::record_of(db, mac) {
                Some(known) => {
                    &&& row.hostname is None ==> rec.hostname == known.hostname
                    &&& row.vendor is None ==> rec.vendor == known.vendor
                    &&& row.os_guess is None ==> rec.os_guess == known.os_guess
                    &&& rec.label == known.label
                    &&& rec.notes == known.notes
                    &&& rec.first_seen == known.first_seen
                    &&& rec.times_seen == known.times_seen + 1
                    &&& known.presence_events.len() > 0
                        && known.presence_events[known.presence_events.len() - 1].online
                        ==> rec.presence_events == known.presence_events
                    &&& !(known.presence_events.len() > 0
                        && known.presence_events[known.presence_events.len() - 1].online)
                        ==> rec.presence_events[rec.presence_events.len() - 1].ts == now
                },
                None => {
                    &&& row.hostname is None ==> rec.hostname is None
                    &&& row.vendor is None ==> rec.vendor is None
                    &&& row.os_guess is None ==> rec.os_guess is None
                    &&& rec.label is None
                    &&& rec.notes is None
                    &&& rec.first_seen == now
                    &&& rec.times_seen == 1
                    &&& rec.presence_events.len() == 1
                    &&& rec.presence_events[0].ts == now
                },
            }
        },
{
    lemma_one_row(db, live, now, mac, i);
    lemma_sightings_live(live, mac);
    assert(is_live(live, mac));
    storage::lemma_slot(db, mac);
    match storage::slot(db, mac) {
        Some(k) => {
            assert(db[k].1.times_seen + sightings(live, db[k].0) <= u64::MAX);
            storage::law_observed_is_known(db[k].1.presence_events, now, true);
            let all = db[k].1.presence_events.push(storage::PresenceEvent { ts: now, online: true });
            assert(all.last().ts == now);
        },
        None => {
            let none = Seq::<storage::PresenceEvent>::empty();
            assert(storage::observed(none, now, true) == none.push(
                storage::PresenceEvent { ts: now, online: true },
            ));
        },
    }
}

/// What the row of an online device shows, where it has one row: what the scan
/// found of it, and what its record holds after the scan. It is new for a day
/// after it was first seen.
pub proof fn law_online_row_shows(
    db: Seq<(Seq<char>, storage::RecordModel)>,
    live: Seq<DeviceModel>,
    now: u64,
    mac: Seq<char>,
    i: int,
)
    requires
        storage::distinct(db),
        0 <= i < live.len(),
        live[i].mac == Some(mac),
        forall|j: int| 0 <= j < live.len() && j != i ==> (#[trigger] live[j]).mac != Some(mac),
    ensures
        storage::record_of(history_after(db, live, now), mac) matches Some(rec) && {
            let found = live[i];
            let row = online_rows(db, live, now)[i];
            &&& row.online
            &&& row.ip == found.ip
            &&& row.mac == Some(mac)
            &&& row.vendor == found.vendor
            &&& row.hostname == found.hostname
            &&& row.title == found.title
            &&& row.open_ports == found.open_ports
            &&& row.rtt_ms == found.rtt_ms
            &&& row.ttl == found.ttl
            &&& row.sources == found.sources
            &&& row.last_seen == found.last_seen
            &&& row.last_seen_epoch == Some(now)
            &&& row.first_seen_epoch == Some(rec.first_seen)
            &&& row.times_seen == rec.times_seen
            &&& row.label == rec.label
            &&& row.notes == rec.notes
            &&& row.os_guess == rec.os_guess
            &&& row.is_new <==> now < rec.first_seen + 86400
        },
{
    lemma_one_row(db, live, now, mac, i);
}

/// A row without a hardware address is shown as found, online since now.
pub proof fn law_nameless_row_shows(
    db: Seq<(Seq<char>, storage::RecordModel)>,
    live: Seq<DeviceModel>,
    now: u64,
    i: int,
)
    requires
        0 <= i < live.len(),
        live[i].mac is None,
    ensures
        online_rows(db, live, now).len() == live.len(),
        online_rows(db, live, now)[i] == (DeviceModel {
            online: true,
            last_seen_epoch: Some(now),
            ..live[i]
        }),
{
}

/// What a scan makes of the record of a known device that it did not find:
/// nothing but that it is offline now, where it was not before.
pub proof fn law_absence_changes_status_only(
    db: Seq<(Seq<char>, storage::RecordModel)>,
    live: Seq<DeviceModel>,
    now: u64,
    mac: Seq<char>,
)
    requires
        storage::distinct(db),
        storage::record_of(db, mac) is Some,
        forall|j: int| 0 <= j < live.len() ==> (#[trigger] live[j]).mac != Some(mac),
    ensures
        storage::record_of(history_after(db, live, now), mac) matches Some(rec) && {
            let known = storage::record_of(db, mac)->0;
            let n = known.presence_events.len();
            let m = rec.presence_events.len();
            &&& rec.first_seen == known.first_seen
            &&& rec.last_seen == known.last_seen
            &&& rec.times_seen == known.times_seen
            &&& rec.ip == known.ip
            &&& rec.vendor == known.vendor
            &&& rec.hostname == known.hostname
            &&& rec.label == known.label
            &&& rec.notes == known.notes
            &&& rec.os_guess == known.os_guess
            &&& m > 0 && !rec.presence_events[m - 1].online
            &&& n > 0 && !known.presence_events[n - 1].online ==> rec.presence_events
                == known.presence_events
            &&& n == 0 || known.presence_events[n - 1].online ==> rec.presence_events[m - 1].ts
                == now
        },
{
    lemma_others_leave_record(db, live, now, mac, 0);
    assert(live.take(0).len() == 0);
    lemma_history_record(db, live, now, mac);
    assert(!is_live(live, mac));
    let known = storage::record_of(db, mac)->0;
    storage::law_observed_is_known(known.presence_events, now, false);
    let all = known.presence_events.push(storage::PresenceEvent { ts: now, online: false });
    assert(all.last().ts == now);
}

/// The row of an offline device shows what is remembered of it: a device is
/// listed while it was seen within the last seven days.
pub proof fn law_absent_device_is_shown(
    db: Seq<(Seq<char>, storage::RecordModel)>,
    live: Seq<DeviceModel>,
    now: u64,
    mac: Seq<char>,
)
    requires
        storage::distinct(db),
        storage::record_of(db, mac) is Some,
        forall|j: int| 0 <= j < live.len() ==> (#[trigger] live[j]).mac != Some(mac),
    ensures
        ({
            let known = storage::record_of(db, mac)->0;
            let rows = offline_rows(history_after(db, live, now), live, now);
            &&& now <= known.last_seen + 604800 ==> exists|i: int|
                {
                    &&& 0 <= i < rows.len()
                    &&& (#[trigger] rows[i]).mac == Some(mac)
                    &&& rows[i].ip == known.ip
                    &&& rows[i].vendor == known.vendor
                    &&& rows[i].hostname == known.hostname
                    &&& rows[i].label == known.label
                    &&& rows[i].notes == known.notes
                    &&& rows[i].os_guess == known.os_guess
                    &&& rows[i].first_seen_epoch == Some(known.first_seen)
                    &&& rows[i].last_seen_epoch == Some(known.last_seen)
                    &&& rows[i].times_seen == known.times_seen
                    &&& !rows[i].online
                    &&& !rows[i].is_new
                    &&& rows[i].title is None
                    &&& rows[i].open_ports.len() == 0
                    &&& rows[i].sources.len() == 0
                    &&& rows[i].rtt_ms is None
                    &&& rows[i].ttl is None
                    &&& now >= known.last_seen ==> rows[i].last_seen == ago_text(
                        (now - known.last_seen) as nat,
                    )
                }
            &&& now > known.last_seen + 604800 ==> forall|i: int|
                0 <= i < rows.len() ==> (#[trigger] rows[i]).mac != Some(mac)
        }),
{
    law_absence_changes_status_only(db, live, now, mac);
    let after = history_after(db, live, now);
    let rows = offline_rows(after, live, now);
    let known = storage::record_of(db, mac)->0;
    lemma_others_leave_record(db, live, now, mac, 0);
    let recorded = rows_recorded(db, live, now);
    assert(storage::distinct(after)) by {
        assert forall|a: int, b: int| 0 <= a < b < after.len() implies (#[trigger] after[a]).0 != (
        #[trigger] after[b]).0 by {
            assert(recorded[a].0 != recorded[b].0);
        }
    }
    storage::lemma_slot(after, mac);
    let k = storage::slot(after, mac)->0;
    assert(!is_live(live, mac));
    law_offline_listing(after, live, now);
    if now <= known.last_seen + 604800 {
        assert(listed_offline(after[k], live, now));
        let i = choose|i: int| 0 <= i < rows.len() && rows[i] == offline_row(after[k], now);
        assert(rows[i].mac == Some(mac));
    } else {
        assert forall|i: int| 0 <= i < rows.len() implies (#[trigger] rows[i]).mac != Some(mac) by {
            let q = choose|q: int|
                0 <= q < after.len() && listed_offline(#[trigger] after[q], live, now) && rows[i]
                    == offline_row(after[q], now);
            if after[q].0 == mac {
                if q < k {
                    assert(after[q].0 != after[k].0);
                } else if k < q {
                    assert(after[k].0 != after[q].0);
                }
            }
        }
    }
}

/// A device that a scan found is not listed as offline.
pub proof fn law_no_device_both_ways(
    db: Seq<(Seq<char>, storage::RecordModel)>,
    live: Seq<DeviceModel>,
    now: u64,
    i: int,
    j: int,
)
    requires
        0 <= i < offline_rows(db, live, now).len(),
        0 <= j < live.len(),
    ensures
        offline_rows(db, live, now)[i].mac is Some,
        offline_rows(db, live, now)[i].mac != live[j].mac,
{
    law_offline_listing(db, live, now);
    let rows = offline_rows(db, live, now);
    let q = choose|q: int|
        0 <= q < db.len() && listed_offline(#[trigger] db[q], live, now) && rows[i] == offline_row(
            db[q],
            now,
        );
    assert(!is_live(live, db[q].0));
}

/// How long ago is told in whole seconds, minutes, hours or days: the largest
/// of them that was full at least once.
pub proof fn law_ago(seconds: nat, k: nat)
    ensures
        seconds < 60 ==> ago_text(seconds) == numerals::decimal(seconds) + "s lalu"@,
        1 <= k < 60 && 60 * k <= seconds < 60 * (k + 1) ==> ago_text(seconds) == numerals::decimal(
            k,
        ) + "m lalu"@,
        1 <= k < 24 && 3600 * k <= seconds < 3600 * (k + 1) ==> ago_text(seconds)
            == numerals::decimal(k) + "j lalu"@,
        1 <= k && 86400 * k <= seconds < 86400 * (k + 1) ==> ago_text(seconds)
            == numerals::decimal(k) + "h lalu"@,
{
    if 60 * k <= seconds < 60 * (k + 1) {
        assert(seconds / 60 == k);
    }
    if 3600 * k <= seconds < 3600 * (k + 1) {
        assert(seconds / 3600 == k);
    }
    if 86400 * k <= seconds < 86400 * (k + 1) {
        assert(seconds / 86400 == k);
    }
}

/// Sightings are counted row by row.
pub proof fn law_sightings(d: DeviceModel, live: Seq<DeviceModel>, mac: Seq<char>)
    ensures
        sightings(Seq::<DeviceModel>::empty(), mac) == 0,
        d.mac == Some(mac) ==> sightings(seq![d] + live, mac) == sightings(live, mac) + 1,
        d.mac != Some(mac) ==> sightings(seq![d] + live, mac) == sightings(live, mac),
{
    assert((seq![d] + live).drop_first() =~= live);
}

/// All rows can be counted where no count of sightings leaves 64 bits.
pub proof fn law_countable(
    db: Seq<(Seq<char>, storage::RecordModel)>,
    live: Seq<DeviceModel>,
)
    ensures
        countable(db, live) <==> forall|k: int|
            0 <= k < db.len() ==> (#[trigger] db[k]).1.times_seen + sightings(live, db[k].0)
                < 18446744073709551616,
{
}

}
