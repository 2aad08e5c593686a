//! What is remembered of every device: when it was seen, where, under which
//! name, and when it came and went.

use vstd::prelude::*;

verus! {

/// How many presence changes a record keeps.
pub const MAX_PRESENCE_EVENTS: usize = 200;

/// A device came online or went offline.
#[derive(Clone, Copy, Debug, PartialEq, Eq, Structural)]
pub struct PresenceEvent {
    pub ts: u64,
    pub online: bool,
}

/// Everything that is remembered of one device.
#[derive(Clone, Debug, Default)]
pub struct DeviceRecord {
    pub first_seen: u64,
    pub last_seen: u64,
    pub times_seen: u64,
    pub ip: String,
    pub vendor: Option<String>,
    pub hostname: Option<String>,
    pub label: Option<String>,
    pub notes: Option<String>,
    pub os_guess: Option<String>,
    pub presence_events: Vec<PresenceEvent>,
}

/// What an optional string holds.
pub open spec fn text_of(o: Option<String>) -> Option<Seq<char>> {
    match o {
        Some(s) => Some(s@),
        None => None,
    }
}

/// The contents of a [`DeviceRecord`].
pub struct RecordModel {
    pub first_seen: u64,
    pub last_seen: u64,
    pub times_seen: u64,
    pub ip: Seq<char>,
    pub vendor: Option<Seq<char>>,
    pub hostname: Option<Seq<char>>,
    pub label: Option<Seq<char>>,
    pub notes: Option<Seq<char>>,
    pub os_guess: Option<Seq<char>>,
    pub presence_events: Seq<PresenceEvent>,
}

impl View for DeviceRecord {
    type V = RecordModel;

    open spec fn view(&self) -> RecordModel {
        RecordModel {
            first_seen: self.first_seen,
            last_seen: self.last_seen,
            times_seen: self.times_seen,
            ip: self.ip@,
            vendor: text_of(self.vendor),
            hostname: text_of(self.hostname),
            label: text_of(self.label),
            notes: text_of(self.notes),
            os_guess: text_of(self.os_guess),
            presence_events: self.presence_events@,
        }
    }
}

/// The status that the last event left, if there is any event.
pub open spec fn last_status(events: Seq<PresenceEvent>) -> Option<bool> {
    if events.len() == 0 {
        None
    } else {
        Some(events.last().online)
    }
}

/// The history after a status was observed: unchanged where the status is the
/// one already known, else with one more event, and the oldest dropped where
/// there would be too many.
pub open spec fn observed(events: Seq<PresenceEvent>, ts: u64, online: bool) -> Seq<PresenceEvent> {
    if last_status(events) == Some(online) {
        events
    } else {
        let all = events.push(PresenceEvent { ts, online });
        if all.len() > MAX_PRESENCE_EVENTS {
            all.skip(all.len() - MAX_PRESENCE_EVENTS)
        } else {
            all
        }
    }
}

/// A copy of an optional string.
pub fn copy_text(o: &Option<String>) -> (res: Option<String>)
    ensures
        text_of(res) == text_of(*o),
{
    match o {
        Some(s) => Some(s.clone()),
        None => None,
    }
}

impl DeviceRecord {
    /// A copy of the record.
    pub fn copied(&self) -> (res: DeviceRecord)
        ensures
            res@ == self@,
    {
        let presence_events = self.presence_events.clone();
        assert(presence_events@ =~= self.presence_events@);
        DeviceRecord {
            first_seen: self.first_seen,
            last_seen: self.last_seen,
            times_seen: self.times_seen,
            ip: self.ip.clone(),
            vendor: copy_text(&self.vendor),
            hostname: copy_text(&self.hostname),
            label: copy_text(&self.label),
            notes: copy_text(&self.notes),
            os_guess: copy_text(&self.os_guess),
            presence_events,
        }
    }

    /// The status that the last event left.
    pub fn last_known_online(&self) -> (res: Option<bool>)
        ensures
            res == last_status(self@.presence_events),
    {
        let n = self.presence_events.len();
        if n == 0 {
            None
        } else {
            Some(self.presence_events[n - 1].online)
        }
    }

    /// Notes that the device was online or offline at `ts`.
    pub fn push_presence(&mut self, ts: u64, online: bool)
        ensures
            final(self)@ == (RecordModel {
                presence_events: observed(old(self)@.presence_events, ts, online),
                ..old(self)@
            }),
    {
        let known = self.last_known_online();
        if let Some(status) = known {
            if status == online {
                return ;
            }
        }
        self.presence_events.push(PresenceEvent { ts, online });
        let n = self.presence_events.len();
        if n > MAX_PRESENCE_EVENTS {
            let kept = self.presence_events.split_off(n - MAX_PRESENCE_EVENTS);
            self.presence_events = kept;
        }
    }
}

/// Every known device by its hardware address. No address occurs twice; the
/// order is that in which the devices were first seen.
#[derive(Clone, Debug, Default)]
pub struct Database {
    pub devices: Vec<(String, DeviceRecord)>,
}

impl View for Database {
    type V = Seq<(Seq<char>, RecordModel)>;

    open spec fn view(&self) -> Seq<(Seq<char>, RecordModel)> {
        self.devices@.map_values(|e: (String, DeviceRecord)| (e.0@, e.1@))
    }
}

/// No two entries have the same address.
pub open spec fn distinct(entries: Seq<(Seq<char>, RecordModel)>) -> bool {
    forall|i: int, j: int|
        0 <= i < j < entries.len() ==> (#[trigger] entries[i]).0 != (#[trigger] entries[j]).0
}

/// The first position of `mac` among the entries.
pub open spec fn slot(entries: Seq<(Seq<char>, RecordModel)>, mac: Seq<char>) -> Option<int>
    decreases entries.len(),
{
    if entries.len() == 0 {
        None
    } else {
        match slot(entries.drop_last(), mac) {
            Some(i) => Some(i),
            None => if entries.last().0 == mac {
                Some(entries.len() - 1)
            } else {
                None
            },
        }
    }
}

/// The record of `mac`.
pub open spec fn record_of(entries: Seq<(Seq<char>, RecordModel)>, mac: Seq<char>) -> Option<
    RecordModel,
> {
    match slot(entries, mac) {
        Some(i) => Some(entries[i].1),
        None => None,
    }
}

/// The entries with `rec` as the record of `mac`: in its place where `mac` is
/// known, else at the end.
pub open spec fn with_record(
    entries: Seq<(Seq<char>, RecordModel)>,
    mac: Seq<char>,
    rec: RecordModel,
) -> Seq<(Seq<char>, RecordModel)> {
    match slot(entries, mac) {
        Some(i) => entries.update(i, (mac, rec)),
        None => entries.push((mac, rec)),
    }
}

/// A position found holds the address and is the first to do so; none is found
/// only where no entry holds it.
pub proof fn lemma_slot(entries: Seq<(Seq<char>, RecordModel)>, mac: Seq<char>)
    ensures
        match slot(entries, mac) {
            Some(i) => 0 <= i < entries.len() && entries[i].0 == mac && forall|j: int|
                0 <= j < i ==> (#[trigger] entries[j]).0 != mac,
            None => forall|j: int| 0 <= j < entries.len() ==> (#[trigger] entries[j]).0 != mac,
        },
    decreases entries.len(),
{
    if entries.len() > 0 {
        let front = entries.drop_last();
        lemma_slot(front, mac);
        assert(forall|j: int| 0 <= j < front.len() ==> front[j] == entries[j]);
        match slot(front, mac) {
            Some(i) => {
                assert(entries[i] == front[i]);
                assert forall|j: int| 0 <= j < i implies (#[trigger] entries[j]).0 != mac by {
                    assert(front[j].0 != mac);
                }
            },
            None => {
                assert forall|j: int| 0 <= j < entries.len() - 1 implies (
                #[trigger] entries[j]).0 != mac by {
                    assert(front[j].0 != mac);
                }
            },
        }
    }
}

/// A record that was put in is read back, the records of other addresses stay
/// as they were, and no address comes to occur twice.
pub proof fn law_record_read_back(
    entries: Seq<(Seq<char>, RecordModel)>,
    mac: Seq<char>,
    rec: RecordModel,
)
    requires
        distinct(entries),
    ensures
        record_of(with_record(entries, mac, rec), mac) == Some(rec),
        forall|other: Seq<char>|
            other != mac ==> record_of(with_record(entries, mac, rec), other) == #[trigger] record_of(
                entries,
                other,
            ),
        distinct(with_record(entries, mac, rec)),
{
    let after = with_record(entries, mac, rec);
    lemma_slot(entries, mac);
    lemma_slot(after, mac);
    match slot(entries, mac) {
        Some(k) => {
            assert(after[k].0 == mac);
        },
        None => {
            assert(after[entries.len() as int].0 == mac);
        },
    }
    assert forall|other: Seq<char>| other != mac implies record_of(after, other)
        == #[trigger] record_of(entries, other) by {
        lemma_slot(entries, other);
        lemma_slot(after, other);
        match slot(entries, other) {
            Some(i) => {
                assert(after[i] == entries[i]);
                match slot(after, other) {
                    Some(j) => {
                        if j < i {
                            assert(entries[j].0 == after[j].0);
                        }
                    },
                    None => {},
                }
            },
            None => {
                match slot(after, other) {
                    Some(j) => {
                        if j < entries.len() {
                            assert(entries[j].0 == after[j].0);
                        }
                    },
                    None => {},
                }
            },
        }
    }
    assert forall|i: int, j: int| 0 <= i < j < after.len() implies (#[trigger] after[i]).0 != (
    #[trigger] after[j]).0 by {
        if j < entries.len() {
            assert(entries[i].0 == after[i].0);
            assert(entries[j].0 == after[j].0);
        } else {
            assert(entries[i].0 == after[i].0);
        }
    }
}

impl Database {
    /// Whether no address occurs twice.
    pub open spec fn wf(&self) -> bool {
        distinct(self@)
    }

    /// A database without devices.
    pub fn new() -> (res: Self)
        ensures
            res.wf(),
            res@ == Seq::<(Seq<char>, RecordModel)>::empty(),
    {
        let res = Database { devices: Vec::new() };
        assert(res@ =~= Seq::<(Seq<char>, RecordModel)>::empty());
        res
    }

    /// The position of `mac`.
    pub fn find(&self, mac: &String) -> (res: Option<usize>)
        ensures
            match res {
                Some(i) => slot(self@, mac@) == Some(i as int) && i < self@.len(),
                None => slot(self@, mac@) is None,
            },
    {
        let mut i: usize = 0;
        proof {
            lemma_slot(self@, mac@);
        }
        while i < self.devices.len()
            invariant
                i <= self.devices@.len(),
                forall|j: int| 0 <= j < i ==> (#[trigger] self@[j]).0 != mac@,
                match slot(self@, mac@) {
                    Some(k) => 0 <= k < self@.len() && self@[k].0 == mac@ && forall|j: int|
                        0 <= j < k ==> (#[trigger] self@[j]).0 != mac@,
                    None => forall|j: int| 0 <= j < self@.len() ==> (#[trigger] self@[j]).0 != mac@,
                },
            decreases self.devices@.len() - i,
        {
            assert(self@[i as int].0 == self.devices@[i as int].0@);
            if self.devices[i].0 == *mac {
                return Some(i);
            }
            i = i + 1;
        }
        None
    }

    /// The record of `mac`.
    pub fn get(&self, mac: &String) -> (res: Option<&DeviceRecord>)
        ensures
            match res {
                Some(rec) => record_of(self@, mac@) == Some(rec@),
                None => record_of(self@, mac@) is None,
            },
    {
        match self.find(mac) {
            Some(i) => {
                assert(self@[i as int].1 == self.devices@[i as int].1@);
                Some(&self.devices[i].1)
            },
            None => None,
        }
    }

    /// Makes `rec` the record of `mac`.
    pub fn put(&mut self, mac: String, rec: DeviceRecord)
        requires
            old(self).wf(),
        ensures
            final(self).wf(),
            final(self)@ == with_record(old(self)@, mac@, rec@),
    {
        let ghost before = self@;
        let ghost key = mac@;
        let ghost value = rec@;
        proof {
            law_record_read_back(before, key, value);
        }
        match self.find(&mac) {
            Some(i) => {
                self.devices[i] = (mac, rec);
                assert(self@ =~= before.update(i as int, (key, value)));
            },
            None => {
                self.devices.push((mac, rec));
                assert(self@ =~= before.push((key, value)));
            },
        }
    }
}

/// No two neighbouring events leave the same status, and there are not more
/// than a record keeps.
pub open spec fn orderly(events: Seq<PresenceEvent>) -> bool {
    &&& events.len() <= MAX_PRESENCE_EVENTS
    &&& forall|i: int, j: int|
        0 <= i && j == i + 1 && j < events.len() ==> (#[trigger] events[i]).online != (
        #[trigger] events[j]).online
}

/// Observing keeps a history orderly, leaves the observed status as the last
/// known one, and does nothing when the same status is observed again.
pub proof fn law_presence_stays_orderly(
    events: Seq<PresenceEvent>,
    ts: u64,
    online: bool,
    later: u64,
)
    requires
        orderly(events),
    ensures
        orderly(observed(events, ts, online)),
        last_status(observed(events, ts, online)) == Some(online),
        observed(observed(events, ts, online), later, online) == observed(events, ts, online),
{
    let all = events.push(PresenceEvent { ts, online });
    let after = observed(events, ts, online);
    if last_status(events) != Some(online) {
        assert forall|i: int, j: int| 0 <= i && j == i + 1 && j < after.len() implies (
        #[trigger] after[i]).online != (#[trigger] after[j]).online by {
            let skipped = all.len() - after.len();
            assert(after[i] == all[i + skipped]);
            assert(after[j] == all[j + skipped]);
            if j + skipped < events.len() {
                assert(events[i + skipped].online != events[j + skipped].online);
            } else {
                assert(all[i + skipped] == events.last());
            }
        }
        assert(after.last() == all.last());
    }
}

/// Whatever the history, the observed status is the last known one afterwards.
pub proof fn law_observed_is_known(events: Seq<PresenceEvent>, ts: u64, online: bool)
    ensures
        last_status(observed(events, ts, online)) == Some(online),
{
    let all = events.push(PresenceEvent { ts, online });
    if last_status(events) != Some(online) {
        assert(observed(events, ts, online).last() == all.last());
    }
}

/// Entries with the same addresses have every address in the same place.
pub proof fn lemma_slot_by_keys(
    a: Seq<(Seq<char>, RecordModel)>,
    b: Seq<(Seq<char>, RecordModel)>,
    mac: Seq<char>,
)
    requires
        a.len() == b.len(),
        forall|i: int| 0 <= i < a.len() ==> (#[trigger] a[i]).0 == b[i].0,
    ensures
        slot(a, mac) == slot(b, mac),
{
    lemma_slot(a, mac);
    lemma_slot(b, mac);
    match slot(a, mac) {
        Some(i) => {
            assert(b[i].0 == mac);
            match slot(b, mac) {
                Some(j) => {
                    if j < i {
                        assert(a[j].0 == mac);
                    }
                },
                None => {},
            }
        },
        None => {
            match slot(b, mac) {
                Some(j) => {
                    assert(a[j].0 == mac);
                },
                None => {},
            }
        },
    }
}

/// A change of status adds one event with its time; the same status again adds
/// none. Of two hundred events the oldest makes room for the new one.
pub proof fn law_changes_are_kept(events: Seq<PresenceEvent>, ts: u64, online: bool)
    requires
        events.len() <= 200,
    ensures
        events.len() > 0 && events[events.len() - 1].online == online ==> observed(
            events,
            ts,
            online,
        ) == events,
        !(events.len() > 0 && events[events.len() - 1].online == online) && events.len() < 200
            ==> observed(events, ts, online) == events + seq![PresenceEvent { ts, online }],
        !(events.len() > 0 && events[events.len() - 1].online == online) && events.len() == 200
            ==> observed(events, ts, online) == events.skip(1) + seq![PresenceEvent { ts, online }],
{
    let all = events.push(PresenceEvent { ts, online });
    assert(all =~= events + seq![PresenceEvent { ts, online }]);
    if events.len() == 200 {
        assert(all.skip(1) =~= events.skip(1) + seq![PresenceEvent { ts, online }]);
    }
}

/// The record of an address is the one that stands beside it.
pub proof fn law_record_beside_address(
    entries: Seq<(Seq<char>, RecordModel)>,
    mac: Seq<char>,
    i: int,
)
    requires
        distinct(entries),
        0 <= i < entries.len(),
    ensures
        record_of(entries, entries[i].0) == Some(entries[i].1),
        record_of(entries, mac) is Some <==> exists|k: int|
            0 <= k < entries.len() && (#[trigger] entries[k]).0 == mac,
{
    lemma_slot(entries, entries[i].0);
    lemma_slot(entries, mac);
}

/// A record that is put in takes the place of the one before it, or else comes
/// last; every other entry stays where it is.
pub proof fn law_entries_keep_their_places(
    entries: Seq<(Seq<char>, RecordModel)>,
    mac: Seq<char>,
    rec: RecordModel,
    i: int,
)
    requires
        distinct(entries),
        0 <= i < entries.len(),
    ensures
        ({
            let after = with_record(entries, mac, rec);
            &&& after[i].0 == entries[i].0
            &&& entries[i].0 != mac ==> after[i] == entries[i]
            &&& entries[i].0 == mac ==> after[i] == (mac, rec) && after.len() == entries.len()
            &&& record_of(entries, mac) is None ==> after == entries + seq![(mac, rec)]
        }),
{
    lemma_slot(entries, mac);
    assert(entries.push((mac, rec)) =~= entries + seq![(mac, rec)]);
}

}
