use lansight::arp::{read_arp_table, reverse_dns, ArpTable};
use lansight::dns::NameTable;
use lansight::oui::OuiRegistry;
use lansight::probe::{Action, Connect, HostProbe, ProbeResult};
use lansight::scanner::{
    detect_subnet, host_ip, ip_sort_key, live_device, sort_rows, subnet_prefix, AliveHosts,
    ScanResult, Sweep,
};
use lansight::ssdp::{Facts, Replies};

fn host(ip: &str) -> ProbeResult {
    ProbeResult {
        ip: ip.to_string(),
        open_ports: vec![80],
        title: None,
        sources: vec!["tcp:80".to_string()],
        mac: None,
        hostname: None,
        ttl: None,
        rtt_ms: None,
    }
}

fn row(ip: &str, note: &str) -> ScanResult {
    ScanResult {
        ip: ip.to_string(),
        mac: None,
        vendor: None,
        hostname: Some(note.to_string()),
        title: None,
        open_ports: vec![],
        rtt_ms: None,
        ttl: None,
        os_guess: None,
        sources: vec![],
        last_seen: String::new(),
    }
}

#[test]
fn subnet_of_local_address() {
    assert_eq!(detect_subnet("10.1.2.3"), "10.1.2.0/24");
    assert_eq!(detect_subnet("192.168.0.17"), "192.168.0.0/24");
    assert_eq!(detect_subnet("fe80::1"), "192.168.1.0/24");
    assert_eq!(detect_subnet(""), "192.168.1.0/24");
    assert_eq!(detect_subnet("1.2.3.4.5"), "192.168.1.0/24");
}

#[test]
fn prefix_of_subnet() {
    assert_eq!(subnet_prefix("10.1.2.0/24"), "10.1.2");
    assert_eq!(subnet_prefix("10.1.2.0"), "10.1.2");
    assert_eq!(subnet_prefix("10.1/24"), "192.168.1");
    assert_eq!(host_ip("10.1.2", 254), "10.1.2.254");
}

#[test]
fn own_network_is_scanned() {
    for ip in ["10.1.2.3", "192.168.0.17", "a.b.c.d"] {
        let prefix = subnet_prefix(&detect_subnet(ip));
        assert!(ip.starts_with(&format!("{}.", prefix)));
    }
}

#[test]
fn sweep_hands_out_every_host_once() {
    let mut sweep = Sweep::new();
    let mut hosts: Vec<u32> = Vec::new();
    let mut active: usize = 0;
    loop {
        while let Some(h) = sweep.launch() {
            hosts.push(h);
            active += 1;
            assert!(active <= 48);
        }
        if sweep.is_idle() {
            break;
        }
        sweep.landed();
        active -= 1;
    }
    assert_eq!(hosts, (1..255).collect::<Vec<u32>>());
    assert_eq!(active, 0);
}

#[test]
fn sort_key_is_last_part() {
    assert_eq!(ip_sort_key("192.168.1.20"), 20);
    assert_eq!(ip_sort_key("192.168.1.007"), 7);
    assert_eq!(ip_sort_key("192.168.1.+7"), 7);
    assert_eq!(ip_sort_key("4294967295"), 4294967295);
    assert_eq!(ip_sort_key("4294967296"), 0);
    assert_eq!(ip_sort_key("192.168.1."), 0);
    assert_eq!(ip_sort_key("1.+"), 0);
    assert_eq!(ip_sort_key("1.-1"), 0);
    assert_eq!(ip_sort_key("fe80::1"), 0);
}

#[test]
fn rows_are_sorted_and_stable() {
    let rows = vec![row("a.20", "p"), row("b.3", "q"), row("c.100", "r"), row("d.3", "s"), row("x", "t")];
    let sorted = sort_rows(rows);
    let ips: Vec<&str> = sorted.iter().map(|r| r.ip.as_str()).collect();
    assert_eq!(ips, vec!["x", "b.3", "d.3", "a.20", "c.100"]);
}

#[test]
fn probe_of_a_web_server() {
    let mut probe = HostProbe::new("10.0.0.5".to_string());
    let mut tried: Vec<u16> = Vec::new();
    while let Action::TryPort(port) = probe.next() {
        tried.push(port);
        let ended = match port {
            22 | 80 | 8080 | 8081 => Connect::Open,
            23 => Connect::Refused,
            _ => Connect::Silent,
        };
        probe.connected(ended, port as u32);
    }
    assert_eq!(tried.len(), 30);
    assert_eq!(tried[0], 21);
    assert_eq!(tried[29], 32400);
    assert_eq!(probe.next(), Action::AskNames);
    probe.names_replied(None);
    assert_eq!(probe.next(), Action::FetchTitle(80));
    probe.title_fetched(None);
    assert_eq!(probe.next(), Action::FetchTitle(8080));
    probe.title_fetched(Some("Router".to_string()));
    assert_eq!(probe.next(), Action::Stop);
    let found = probe.finish().unwrap();
    assert_eq!(found.ip, "10.0.0.5");
    assert_eq!(found.open_ports, vec![22, 80, 8080, 8081]);
    assert_eq!(found.title.as_deref(), Some("Router"));
    assert_eq!(found.sources, vec!["tcp:22", "tcp:80", "tcp:8080", "tcp:8081", "tcp-rst"]);
    assert_eq!(found.mac, None);
    assert_eq!(found.hostname, None);
    assert_eq!(found.ttl, None);
    // the first port that answered
    assert_eq!(found.rtt_ms, Some(22));
}

#[test]
fn probe_of_a_silent_host() {
    let mut probe = HostProbe::new("10.0.0.6".to_string());
    while let Action::TryPort(_) = probe.next() {
        probe.connected(Connect::Silent, 350);
    }
    probe.names_replied(None);
    assert_eq!(probe.next(), Action::Stop);
    assert!(probe.finish().is_none());
}

#[test]
fn probe_by_refusal_and_by_names() {
    let mut probe = HostProbe::new("10.0.0.7".to_string());
    while let Action::TryPort(_) = probe.next() {
        probe.connected(Connect::Refused, 4);
    }
    probe.names_replied(Some(&[0u8; 4]));
    assert_eq!(probe.next(), Action::Stop);
    let found = probe.finish().unwrap();
    assert_eq!(found.sources, vec!["tcp-rst", "netbios"]);
    assert_eq!(found.rtt_ms, Some(4));
    assert!(found.open_ports.is_empty());
}

#[test]
fn broadcasts_add_to_hosts() {
    let mut alive = AliveHosts::new();
    alive.enter(host("10.0.0.2"));
    let mut titled = host("10.0.0.3");
    titled.title = Some("Page".to_string());
    titled.mac = Some("aa:aa:aa:aa:aa:aa".to_string());
    alive.enter(titled);
    alive.note_mdns(&vec!["10.0.0.2".to_string(), "10.0.0.9".to_string(), "10.0.0.2".to_string()]);

    let mut replies = Replies::new();
    for ip in ["10.0.0.3", "10.0.0.8"] {
        replies.note(
            ip.to_string(),
            Facts { server: Some("UPnP".to_string()), mac: Some("bb:bb:bb:bb:bb:bb".to_string()) },
        );
    }
    alive.note_ssdp(&replies);
    assert_eq!(alive.nameless_ips(), vec!["10.0.0.2", "10.0.0.3", "10.0.0.9", "10.0.0.8"]);
    assert_eq!(alive.len(), 4);

    let macs = ArpTable::new();
    let registry = OuiRegistry::parse("");
    let rows = alive.results(&macs, &registry, &vec![None, None, None, None], "01:02:03");
    let ips: Vec<&str> = rows.iter().map(|r| r.ip.as_str()).collect();
    assert_eq!(ips, vec!["10.0.0.2", "10.0.0.3", "10.0.0.8", "10.0.0.9"]);
    assert_eq!(rows[0].sources, vec!["tcp:80", "mdns"]);
    assert_eq!(rows[1].title.as_deref(), Some("Page"));
    assert_eq!(rows[1].mac.as_deref(), Some("bb:bb:bb:bb:bb:bb"));
    assert_eq!(rows[1].sources, vec!["tcp:80", "ssdp"]);
    assert_eq!(rows[2].title.as_deref(), Some("UPnP"));
    assert_eq!(rows[2].mac.as_deref(), Some("bb:bb:bb:bb:bb:bb"));
    assert_eq!(rows[3].sources, vec!["mdns"]);
    assert_eq!(rows[3].last_seen, "01:02:03");
}

#[test]
fn a_host_is_entered_once() {
    let mut alive = AliveHosts::new();
    alive.enter(host("10.0.0.2"));
    let mut again = host("10.0.0.2");
    again.open_ports = vec![22];
    alive.enter(again);
    assert_eq!(alive.len(), 1);
    let rows = alive.results(&ArpTable::new(), &OuiRegistry::parse(""), &vec![None], "");
    assert_eq!(rows[0].open_ports, vec![22]);
}

#[test]
fn names_and_addresses_by_priority() {
    let mut alive = AliveHosts::new();
    let mut named = host("10.0.0.2");
    named.hostname = Some("NETBIOS".to_string());
    named.mac = Some("72:00:00:00:00:01".to_string());
    alive.enter(named);
    let mut known = host("10.0.0.3");
    known.mac = Some("72:00:00:00:00:02".to_string());
    alive.enter(known);
    assert_eq!(alive.wants_lookup(0), None);
    assert_eq!(alive.wants_lookup(1).as_deref(), Some("10.0.0.3"));

    let macs = read_arp_table(
        Some(b"10.0.0.3 dev wlan0 lladdr a8:29:48:14:25:e0 REACHABLE\n"),
        None,
    );
    let registry = OuiRegistry::parse("A82948\tEarda\n");
    let output = b"3.0.0.10.in-addr.arpa\tname = tv.lan.\n".to_vec();
    let lookups = vec![Some(output.clone()), Some(output)];
    let rows = alive.results(&macs, &registry, &lookups, "now");
    assert_eq!(rows[0].hostname.as_deref(), Some("NETBIOS"));
    assert_eq!(rows[0].mac.as_deref(), Some("72:00:00:00:00:01"));
    assert_eq!(rows[0].vendor.as_deref(), Some("Randomized MAC"));
    assert_eq!(rows[1].hostname.as_deref(), Some("tv.lan"));
    assert_eq!(rows[1].mac.as_deref(), Some("a8:29:48:14:25:e0"));
    assert_eq!(rows[1].vendor.as_deref(), Some("Earda"));
}

#[test]
fn multicast_names_are_taken() {
    let mut alive = AliveHosts::new();
    alive.enter(host("10.0.0.2"));
    alive.enter(host("10.0.0.3"));
    // one answer: root name, PTR, target "tv.local"
    let mut packet: Vec<u8> = vec![0, 0, 0, 0, 0, 0, 0, 1, 0, 0, 0, 0];
    packet.extend_from_slice(&[0, 0, 12, 0, 1, 0, 0, 0, 0, 0, 10, 2, b't', b'v', 5, b'l', b'o', b'c', b'a', b'l', 0]);
    let mut names = NameTable::new();
    names.note_reply("10.0.0.3".to_string(), &packet);
    alive.note_names(&names);
    let rows = alive.results(&ArpTable::new(), &OuiRegistry::parse(""), &vec![None, None], "");
    assert_eq!(rows[0].hostname, None);
    assert_eq!(rows[1].hostname.as_deref(), Some("tv"));
    assert_eq!(rows[1].sources, vec!["tcp:80", "mdns"]);
}

#[test]
fn live_rows_start_without_history() {
    let mut r = row("10.0.0.2", "tv");
    r.rtt_ms = Some(3);
    let d = live_device(r);
    assert_eq!(d.ip, "10.0.0.2");
    assert_eq!(d.hostname.as_deref(), Some("tv"));
    assert_eq!(d.rtt_ms, Some(3));
    assert!(d.online);
    assert!(!d.is_new);
    assert_eq!(d.label, None);
    assert_eq!(d.times_seen, 0);
    assert_eq!(d.first_seen_epoch, None);
}

#[test]
fn neighbours_are_read() {
    let output = b"192.168.1.1 dev eth0 lladdr 11:22:33:44:55:66 REACHABLE\n\
        192.168.1.2 dev eth0  FAILED\n\
        192.168.1.3 dev eth0 x y lladdr\n\
        192.168.1.1 dev eth0 lladdr 77:22:33:44:55:66 STALE\n";
    let table = read_arp_table(Some(output), Some("heading\n9.9.9.9 0x1 0x2 aa:bb:cc:dd:ee:ff * eth0\n"));
    assert_eq!(table.get("192.168.1.1").as_deref(), Some("77:22:33:44:55:66"));
    assert_eq!(table.get("192.168.1.2"), None);
    assert_eq!(table.get("192.168.1.3"), None);
    assert_eq!(table.get("9.9.9.9"), None);
}

#[test]
fn arp_file_is_the_fallback() {
    let file = "IP address HW type Flags HW address Mask Device\n\
        192.168.1.1 0x1 0x2 aa:bb:cc:dd:ee:ff * eth0\n\
        192.168.1.2 0x1 0x0 00:00:00:00:00:00 * eth0\n";
    for output in [None, Some(&b"192.168.1.9 dev eth0 FAILED\n"[..])] {
        let table = read_arp_table(output, Some(file));
        assert!(!table.is_empty());
        assert_eq!(table.get("192.168.1.1").as_deref(), Some("aa:bb:cc:dd:ee:ff"));
        assert_eq!(table.get("192.168.1.2"), None);
        assert_eq!(table.get("IP"), None);
    }
    assert!(read_arp_table(None, None).is_empty());
    assert!(read_arp_table(None, Some("")).is_empty());
}

#[test]
fn lookups_give_names() {
    assert_eq!(
        reverse_dns(b"Server: 1.1.1.1\n\n7.1.168.192.in-addr.arpa\tname = printer.lan.\n", "192.168.1.7").as_deref(),
        Some("printer.lan")
    );
    assert_eq!(reverse_dns(b"  Name:   tv.home..\r\n", "10.0.0.1").as_deref(), Some("tv.home"));
    assert_eq!(reverse_dns(b"Name: 10.0.0.1\nName: HOST\n", "10.0.0.1").as_deref(), Some("HOST"));
    assert_eq!(reverse_dns(b"Name: ABC\n", "abc"), None);
    assert_eq!(reverse_dns(b"name = .\n", "10.0.0.1"), None);
    assert_eq!(reverse_dns(b"", "10.0.0.1"), None);
    assert_eq!(reverse_dns(b"name = caf\xff\n", "10.0.0.1").as_deref(), Some("caf\u{fffd}"));
}

#[test]
fn addresses_come_from_the_neighbours_then_from_broadcasts() {
    let mut alive = AliveHosts::new();
    for ip in ["10.0.0.2", "10.0.0.3", "10.0.0.4", "10.0.0.5"] {
        let mut named = host(ip);
        named.mac = Some("aa:aa:aa:aa:aa:aa".to_string());
        alive.enter(named);
    }
    let mut replies = Replies::new();
    for ip in ["10.0.0.2", "10.0.0.3"] {
        replies.note(
            ip.to_string(),
            Facts { server: None, mac: Some("bb:bb:bb:bb:bb:bb".to_string()) },
        );
    }
    replies.note("10.0.0.4".to_string(), Facts { server: None, mac: None });
    alive.note_ssdp(&replies);
    let macs = read_arp_table(
        Some(b"10.0.0.2 dev wlan0 lladdr cc:cc:cc:cc:cc:cc REACHABLE\n"),
        None,
    );
    let rows = alive.results(&macs, &OuiRegistry::parse(""), &vec![None, None, None, None], "");
    assert_eq!(rows[0].mac.as_deref(), Some("cc:cc:cc:cc:cc:cc"));
    assert_eq!(rows[1].mac.as_deref(), Some("bb:bb:bb:bb:bb:bb"));
    assert_eq!(rows[2].mac.as_deref(), Some("aa:aa:aa:aa:aa:aa"));
    assert_eq!(rows[3].mac.as_deref(), Some("aa:aa:aa:aa:aa:aa"));
}

#[test]
fn echoes_are_shown() {
    let mut alive = AliveHosts::new();
    for ip in ["10.0.0.2", "10.0.0.3"] {
        let mut timed = host(ip);
        timed.rtt_ms = Some(9);
        alive.enter(timed);
    }
    alive.note_echo("10.0.0.2", 64, 3);
    alive.note_echo("10.0.0.4", 128, 1);
    alive.note_mdns(&vec!["10.0.0.2".to_string()]);
    let mut replies = Replies::new();
    replies.note("10.0.0.2".to_string(), Facts { server: None, mac: None });
    alive.note_ssdp(&replies);
    let rows =
        alive.results(&ArpTable::new(), &OuiRegistry::parse(""), &vec![None, None, None], "now");
    assert_eq!((rows[0].ttl, rows[0].rtt_ms), (Some(64), Some(3)));
    assert_eq!(rows[0].os_guess.as_deref(), Some("Linux"));
    assert_eq!(rows[0].open_ports, vec![80]);
    assert_eq!(rows[0].sources, vec!["tcp:80", "mdns", "ssdp"]);
    // no echo: the time of a connection, and no guess
    assert_eq!((rows[1].ttl, rows[1].rtt_ms), (None, Some(9)));
    assert_eq!(rows[1].os_guess, None);
    // found by the echo alone
    assert_eq!((rows[2].ttl, rows[2].rtt_ms), (Some(128), Some(1)));
    assert_eq!(rows[2].os_guess.as_deref(), Some("Windows"));
    assert_eq!(rows[2].sources, vec!["icmp"]);
    let device = live_device(rows[0].clone());
    assert_eq!((device.ttl, device.rtt_ms), (Some(64), Some(3)));
    assert_eq!(device.os_guess.as_deref(), Some("Linux"));
}

#[test]
fn the_vendor_of_a_row_tells_its_system() {
    let mut alive = AliveHosts::new();
    alive.enter(host("10.0.0.2"));
    alive.note_echo("10.0.0.2", 64, 3);
    let macs = read_arp_table(Some(b"10.0.0.2 dev wlan0 lladdr a8:29:48:14:25:e0 REACHABLE\n"), None);
    let registry = OuiRegistry::parse("A82948\tApple, Inc.\n");
    let rows = alive.results(&macs, &registry, &vec![None], "now");
    assert_eq!(rows[0].os_guess.as_deref(), Some("Apple"));
}
