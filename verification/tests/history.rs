use lansight::annotations::{device_detail, set_label, set_notes, AnnotateError};
use lansight::device::{format_ago, is_countable, merge_with_history, Device};
use lansight::storage::{Database, DeviceRecord, PresenceEvent};

fn device(ip: &str, mac: Option<&str>) -> Device {
    Device {
        ip: ip.to_string(),
        mac: mac.map(|m| m.to_string()),
        vendor: None,
        hostname: None,
        title: None,
        label: None,
        notes: None,
        open_ports: vec![],
        rtt_ms: None,
        ttl: None,
        os_guess: None,
        sources: vec![],
        last_seen: "now".to_string(),
        first_seen_epoch: None,
        last_seen_epoch: None,
        times_seen: 0,
        online: false,
        is_new: false,
    }
}

fn record(first: u64, last: u64) -> DeviceRecord {
    DeviceRecord {
        first_seen: first,
        last_seen: last,
        times_seen: 5,
        ip: "10.0.0.9".to_string(),
        vendor: Some("Acme".to_string()),
        hostname: Some("box".to_string()),
        label: Some("Kitchen".to_string()),
        notes: None,
        os_guess: Some("Linux".to_string()),
        presence_events: vec![],
    }
}

#[test]
fn ago_in_largest_unit() {
    assert_eq!(format_ago(0), "0s lalu");
    assert_eq!(format_ago(59), "59s lalu");
    assert_eq!(format_ago(60), "1m lalu");
    assert_eq!(format_ago(3599), "59m lalu");
    assert_eq!(format_ago(3600), "1j lalu");
    assert_eq!(format_ago(86399), "23j lalu");
    assert_eq!(format_ago(86400), "1h lalu");
    assert_eq!(format_ago(864000), "10h lalu");
}

#[test]
fn presence_changes_are_kept() {
    let mut rec = record(0, 0);
    assert_eq!(rec.last_known_online(), None);
    rec.push_presence(10, true);
    rec.push_presence(20, true);
    rec.push_presence(30, false);
    assert_eq!(rec.last_known_online(), Some(false));
    assert_eq!(
        rec.presence_events,
        vec![PresenceEvent { ts: 10, online: true }, PresenceEvent { ts: 30, online: false }]
    );
}

#[test]
fn presence_is_bounded() {
    let mut rec = record(0, 0);
    for i in 0..250u64 {
        rec.push_presence(i, i % 2 == 0);
    }
    assert_eq!(rec.presence_events.len(), 200);
    assert_eq!(rec.presence_events[0], PresenceEvent { ts: 50, online: true });
    assert_eq!(rec.presence_events[199], PresenceEvent { ts: 249, online: false });
}

#[test]
fn records_are_read_back() {
    let mut db = Database::new();
    db.put("aa".to_string(), record(1, 2));
    db.put("bb".to_string(), record(3, 4));
    db.put("aa".to_string(), record(5, 6));
    assert_eq!(db.devices.len(), 2);
    assert_eq!(db.get(&"aa".to_string()).unwrap().first_seen, 5);
    assert_eq!(db.get(&"bb".to_string()).unwrap().first_seen, 3);
    assert!(db.get(&"cc".to_string()).is_none());
}

#[test]
fn new_device_is_recorded() {
    let mut db = Database::new();
    let mut d = device("10.0.0.2", Some("aa"));
    d.vendor = Some("Acme".to_string());
    let rows = merge_with_history(vec![d, device("10.0.0.3", None)], &mut db, 1000);
    assert_eq!(rows.len(), 2);
    assert!(rows[0].online && rows[0].is_new);
    assert_eq!(rows[0].times_seen, 1);
    assert_eq!(rows[0].first_seen_epoch, Some(1000));
    assert_eq!(rows[0].last_seen_epoch, Some(1000));
    assert!(rows[1].online && !rows[1].is_new);
    assert_eq!(rows[1].first_seen_epoch, None);
    assert_eq!(rows[1].last_seen_epoch, Some(1000));
    let rec = db.get(&"aa".to_string()).unwrap();
    assert_eq!(rec.vendor.as_deref(), Some("Acme"));
    assert_eq!(rec.last_known_online(), Some(true));
    assert_eq!(db.devices.len(), 1);
}

#[test]
fn known_device_keeps_what_is_remembered() {
    let mut db = Database::new();
    db.put("aa".to_string(), record(100, 200));
    let rows = merge_with_history(vec![device("10.0.0.2", Some("aa"))], &mut db, 100 + 86400);
    assert_eq!(rows[0].label.as_deref(), Some("Kitchen"));
    assert_eq!(rows[0].os_guess.as_deref(), Some("Linux"));
    assert_eq!(rows[0].times_seen, 6);
    assert!(!rows[0].is_new);
    assert_eq!(rows[0].vendor, None);
    let rec = db.get(&"aa".to_string()).unwrap();
    assert_eq!(rec.ip, "10.0.0.2");
    assert_eq!(rec.vendor.as_deref(), Some("Acme"));
    assert_eq!(rec.last_seen, 86500);
    let mut fresh = device("10.0.0.2", Some("aa"));
    fresh.os_guess = Some("Windows".to_string());
    merge_with_history(vec![fresh], &mut db, 90000);
    assert_eq!(db.get(&"aa".to_string()).unwrap().os_guess.as_deref(), Some("Windows"));
}

#[test]
fn absent_devices_are_listed_for_a_week() {
    let mut db = Database::new();
    db.put("aa".to_string(), record(0, 1000));
    db.put("bb".to_string(), record(0, 999));
    let rows = merge_with_history(vec![], &mut db, 1000 + 604800);
    assert_eq!(rows.len(), 1);
    assert_eq!(rows[0].mac.as_deref(), Some("aa"));
    assert!(!rows[0].online);
    assert_eq!(rows[0].last_seen, "7h lalu");
    assert_eq!(rows[0].last_seen_epoch, Some(1000));
    assert_eq!(rows[0].times_seen, 5);
    assert_eq!(rows[0].hostname.as_deref(), Some("box"));
    assert_eq!(db.get(&"bb".to_string()).unwrap().last_known_online(), Some(false));
    assert_eq!(db.devices.len(), 2);
}

#[test]
fn counting_stops_at_the_limit() {
    let mut db = Database::new();
    let mut rec = record(0, 0);
    rec.times_seen = u64::MAX - 1;
    db.put("aa".to_string(), rec);
    let one = vec![device("1", Some("aa"))];
    let two = vec![device("1", Some("aa")), device("2", Some("aa"))];
    assert!(is_countable(&db, &one));
    assert!(!is_countable(&db, &two));
    assert!(is_countable(&db, &vec![device("1", Some("bb")), device("2", None)]));
}

#[test]
fn labels_are_given_and_taken() {
    let mut db = Database::new();
    let mut rows = vec![device("10.0.0.2", Some("AA:BB")), device("10.0.0.3", Some("cc"))];
    let kept = set_label(&mut db, &mut rows, "  Aa:bB ", Some("  TV  ".to_string()), 77);
    assert_eq!(kept, Ok(Some("TV".to_string())));
    assert_eq!(rows[0].label.as_deref(), Some("TV"));
    assert_eq!(rows[1].label, None);
    let rec = db.get(&"aa:bb".to_string()).unwrap();
    assert_eq!(rec.label.as_deref(), Some("TV"));
    assert_eq!(rec.first_seen, 77);
    assert_eq!(rec.times_seen, 0);
    assert_eq!(set_label(&mut db, &mut rows, "aa:bb", Some(" ".to_string()), 78), Ok(None));
    assert_eq!(rows[0].label, None);
    assert_eq!(db.get(&"aa:bb".to_string()).unwrap().first_seen, 77);
    assert_eq!(set_label(&mut db, &mut rows, "  ", None, 79), Err(AnnotateError::NoAddress));
    assert_eq!(db.devices.len(), 1);
}

#[test]
fn notes_are_given_and_taken() {
    let mut db = Database::new();
    let mut rows = vec![device("10.0.0.2", Some("aa"))];
    assert_eq!(
        set_notes(&mut db, &mut rows, "AA", Some("by the door\n".to_string()), 5),
        Ok(Some("by the door".to_string()))
    );
    assert_eq!(rows[0].notes.as_deref(), Some("by the door"));
    assert_eq!(rows[0].label, None);
    assert_eq!(db.get(&"aa".to_string()).unwrap().notes.as_deref(), Some("by the door"));
    assert_eq!(set_notes(&mut db, &mut rows, "aa", None, 6), Ok(None));
    assert_eq!(db.get(&"aa".to_string()).unwrap().notes, None);
    assert_eq!(set_notes(&mut db, &mut rows, "", None, 6), Err(AnnotateError::NoAddress));
}

#[test]
fn label_survives_a_scan() {
    let mut db = Database::new();
    let mut rows = vec![];
    set_label(&mut db, &mut rows, "aa", Some("TV".to_string()), 1).unwrap();
    let rows = merge_with_history(vec![device("10.0.0.2", Some("aa"))], &mut db, 50);
    assert_eq!(rows[0].label.as_deref(), Some("TV"));
    let rows = merge_with_history(vec![], &mut db, 60);
    assert_eq!(rows[0].label.as_deref(), Some("TV"));
}

#[test]
fn detail_of_a_device() {
    let mut db = Database::new();
    db.put("aa".to_string(), record(1, 2));
    db.put("bb".to_string(), record(1, 2));
    let mut plain = record(1, 2);
    plain.vendor = None;
    db.put("cc".to_string(), plain);
    let rows = vec![device("10.0.0.2", Some("AA"))];
    let detail = device_detail(&db, &rows, " AA ").unwrap();
    assert_eq!(detail.mac, "aa");
    assert_eq!(detail.record.first_seen, 1);
    assert_eq!(detail.current.unwrap().ip, "10.0.0.2");
    assert_eq!(detail.same_vendor_count, 2);
    let detail = device_detail(&db, &rows, "cc").unwrap();
    assert!(detail.current.is_none());
    assert_eq!(detail.same_vendor_count, 0);
    assert!(device_detail(&db, &rows, "dd").is_none());
}
