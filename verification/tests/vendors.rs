use lansight::oui::{is_locally_administered, lookup, normalize, OuiRegistry};

fn registry() -> OuiRegistry {
    OuiRegistry::parse(
        "A82948\tEarda Technologies\nA8A159\tASRock\r\nnot a line\n 001122 \t  Spaced Vendor \nABC\tShort key\n334455\t \n001133\tFirst\n001133\tSecond\ta\n",
    )
}

#[test]
fn known_vendors_resolve() {
    let registry = registry();
    assert!(lookup(&registry, "a8:29:48:14:25:e0").is_some());
    assert!(lookup(&registry, "A8-A1-59-E5-DC-14").is_some());
}

#[test]
fn randomized_mac_flagged() {
    // 0x72 has the locally-administered bit set
    assert_eq!(lookup(&registry(), "72:b6:c0:bf:ec:59").as_deref(), Some("Randomized MAC"));
}

#[test]
fn bad_input_is_none() {
    assert_eq!(lookup(&registry(), "xyz"), None);
    assert_eq!(lookup(&registry(), ""), None);
}

#[test]
fn vendor_names_are_exact() {
    let registry = registry();
    assert_eq!(lookup(&registry, "a8:29:48:14:25:e0").as_deref(), Some("Earda Technologies"));
    assert_eq!(lookup(&registry, "A8-A1-59-E5-DC-14").as_deref(), Some("ASRock"));
    assert_eq!(lookup(&registry, "00:11:22:00:00:00").as_deref(), Some("Spaced Vendor"));
}

#[test]
fn later_line_wins_and_splits_at_first_tab() {
    assert_eq!(lookup(&registry(), "001133aabbcc").as_deref(), Some("Second\ta"));
}

#[test]
fn blank_vendor_is_no_entry() {
    assert_eq!(lookup(&registry(), "33:44:55:00:00:00").as_deref(), Some("Randomized MAC"));
    assert_eq!(lookup(&OuiRegistry::parse("304455\t \n"), "30:44:55:00:00:00"), None);
}

#[test]
fn unknown_prefix_is_none() {
    assert_eq!(lookup(&registry(), "00:00:5e:00:00:01"), None);
}

#[test]
fn case_and_separators_do_not_matter() {
    let registry = registry();
    for mac in ["a829481425e0", "A829.4814.25E0", "a8-29-48-14-25-e0", "(a8)(29)(48)"] {
        assert_eq!(lookup(&registry, mac).as_deref(), Some("Earda Technologies"));
    }
}

#[test]
fn normalize_takes_six_digits() {
    assert_eq!(normalize("a8:29:48:14:25:e0").as_deref(), Some("A82948"));
    assert_eq!(normalize("a8:29:4"), None);
    assert_eq!(normalize("zz1q2w3e4r5t6y").as_deref(), Some("123E45"));
}

#[test]
fn local_bit_is_read_from_first_octet() {
    assert!(is_locally_administered("72B6C0"));
    assert!(is_locally_administered("02"));
    assert!(is_locally_administered("+2"));
    assert!(!is_locally_administered("A82948"));
    assert!(!is_locally_administered("zz"));
    assert!(!is_locally_administered("\u{e9}x"));
}
