use lansight::clock::{clock_str, epoch_of, now_epoch, now_str};
use lansight::dns::{
    clean_ptr_name, mdns_query, parse_dns_name, parse_first_ptr_answer, ptr_query, NameTable,
};
use lansight::http::{page_title, serves_pages, take_chunk, title_request, title_within, Misaligned};
use lansight::netbios::{netbios_query, parse_nbstat};
use lansight::ssdp::{
    extract_mac_from_uuid, mac_in_line, note_line, read_reply, search_message, Facts, Replies,
};

#[test]
fn dns_names_are_read() {
    let mut buf: Vec<u8> = vec![9, 9];
    buf.extend_from_slice(b"\x03www\x07example\x00");
    assert_eq!(parse_dns_name(&buf, 2), Some(("www.example".to_string(), 15)));
    buf.extend_from_slice(b"\x03ftp\xc0\x06!");
    assert_eq!(parse_dns_name(&buf, 15), Some(("ftp.example".to_string(), 21)));
    assert_eq!(parse_dns_name(&buf, 14), Some((String::new(), 15)));
    assert_eq!(parse_dns_name(&buf, 99), None);
    assert_eq!(parse_dns_name(b"\x05abc", 0), None);
    assert_eq!(parse_dns_name(b"\xc0", 0), None);
}

#[test]
fn dns_pointer_loops_end() {
    assert_eq!(parse_dns_name(b"\xc0\x00", 0), None);
    assert_eq!(parse_dns_name(b"\xc0\x02\xc0\x00", 0), None);
}

#[test]
fn service_query_is_fixed() {
    let mut want: Vec<u8> = vec![0, 0, 0, 0, 0, 1, 0, 0, 0, 0, 0, 0];
    want.extend_from_slice(b"\x09_services\x07_dns-sd\x04_udp\x05local\x00\x00\x0c\x00\x01");
    assert_eq!(want.len(), 46);
    assert_eq!(mdns_query(), want);
}

#[test]
fn reverse_query_reads_back() {
    let query = ptr_query(258, "192.168.1.20").unwrap();
    assert_eq!(&query[..12], &[1, 2, 0, 0, 0, 1, 0, 0, 0, 0, 0, 0]);
    assert_eq!(
        parse_dns_name(&query, 12),
        Some(("20.1.168.192.in-addr.arpa".to_string(), query.len() - 4))
    );
    assert_eq!(&query[query.len() - 4..], &[0, 12, 0, 1]);
    assert_eq!(ptr_query(0, "fe80::1"), None);
}

fn answer(kind: u8, data: &[u8]) -> Vec<u8> {
    let mut packet: Vec<u8> = vec![0, 0, 0, 0, 0, 1, 0, 2, 0, 0, 0, 0];
    packet.extend_from_slice(b"\x01q\x00\x00\x0c\x00\x01");
    packet.extend_from_slice(b"\xc0\x0c\x00\x01\x00\x01\x00\x00\x00\x00\x00\x01\x07");
    packet.extend_from_slice(&[0xc0, 0x0c, 0, kind, 0, 1, 0, 0, 0, 0, 0, data.len() as u8]);
    packet.extend_from_slice(data);
    packet
}

#[test]
fn first_pointer_answer_is_found() {
    let packet = answer(12, b"\x02tv\x05local\x00");
    assert_eq!(parse_first_ptr_answer(&packet).as_deref(), Some("tv.local"));
    assert_eq!(parse_first_ptr_answer(&answer(1, b"\x02tv\x00")), None);
    assert_eq!(parse_first_ptr_answer(&packet[..packet.len() - 1]), None);
    assert_eq!(parse_first_ptr_answer(&[0; 11]), None);
    assert_eq!(parse_first_ptr_answer(&[0; 12]), None);
}

#[test]
fn answered_names_are_cleaned() {
    assert_eq!(clean_ptr_name("tv.local.").as_deref(), Some("tv"));
    assert_eq!(clean_ptr_name("tv.local.local").as_deref(), Some("tv"));
    assert_eq!(clean_ptr_name("tv..").as_deref(), Some("tv"));
    assert_eq!(clean_ptr_name(".local"), None);
    assert_eq!(clean_ptr_name(""), None);
    let mut names = NameTable::new();
    names.note_reply("1.1.1.1".to_string(), &answer(12, b"\x02tv\x05local\x00"));
    names.note_reply("1.1.1.1".to_string(), &answer(12, b"\x05later\x00"));
    names.note_reply("1.1.1.2".to_string(), &answer(12, b"\x05local\x00"));
    names.note_reply("1.1.1.3".to_string(), &[1, 2, 3]);
    assert_eq!(names.get("1.1.1.1").as_deref(), Some("tv"));
    assert_eq!(names.get("1.1.1.2").as_deref(), Some("local"));
    assert_eq!(names.get("1.1.1.3"), None);
}

#[test]
fn node_status_query_is_fixed() {
    let query = netbios_query();
    assert_eq!(query.len(), 50);
    assert_eq!(&query[..15], &[0x82, 0x28, 0, 0, 0, 1, 0, 0, 0, 0, 0, 0, 0x20, 0x43, 0x4b]);
    assert!(query[15..45].iter().all(|b| *b == 0x41));
    assert_eq!(&query[45..], &[0, 0, 0x21, 0, 1]);
}

fn node(pointer: bool, entries: &[(&[u8; 15], u8, u8)], mac: &[u8]) -> Vec<u8> {
    let mut buf = vec![0u8; 50];
    if pointer {
        buf.extend_from_slice(&[0xc0, 0x0c]);
    } else {
        buf.extend_from_slice(&[0x20; 34]);
    }
    buf.extend_from_slice(&[0; 10]);
    buf.push(entries.len() as u8);
    for (name, suffix, flags) in entries {
        buf.extend_from_slice(*name);
        buf.push(*suffix);
        buf.push(*flags);
        buf.push(0);
    }
    buf.extend_from_slice(mac);
    buf
}

#[test]
fn node_status_is_read() {
    let entries: [(&[u8; 15], u8, u8); 3] = [
        (b"WORKGROUP      ", 0x00, 0x84),
        (b"\x01\x02bad          ", 0x00, 0x04),
        (b"DESKTOP-1      ", 0x20, 0x04),
    ];
    for pointer in [true, false] {
        let buf = node(pointer, &entries, &[0, 0x1b, 0x2c, 0x3d, 0x4e, 0xff]);
        assert_eq!(
            parse_nbstat(&buf),
            (Some("00:1b:2c:3d:4e:ff".to_string()), Some("DESKTOP-1".to_string()))
        );
    }
    let buf = node(true, &entries, &[0; 6]);
    assert_eq!(parse_nbstat(&buf), (None, Some("DESKTOP-1".to_string())));
    let buf = node(true, &entries, &[1; 5]);
    assert_eq!(parse_nbstat(&buf).0, None);
    assert_eq!(parse_nbstat(&[0; 69]), (None, None));
}

#[test]
fn titles_are_found() {
    let page = |html: &str| page_title(html.as_bytes());
    assert_eq!(page("<html><TITLE>Hello</TITLE>"), Ok(Some("Hello".to_string())));
    assert_eq!(page("<title lang=en>\n  My \t  Router\r\n</title>"), Ok(Some("My Router".to_string())));
    assert_eq!(page("<title>x"), Ok(None));
    assert_eq!(page("<title"), Ok(None));
    assert_eq!(page("<title>  </title>"), Ok(None));
    assert_eq!(page("nothing"), Ok(None));
    assert_eq!(page("<title>Caf\u{c9}\u{2003}Bar</title>"), Ok(Some("Caf\u{c9} Bar".to_string())));
    assert_eq!(page_title(b"<title>a\xffb</title>"), Ok(Some("a\u{fffd}b".to_string())));
    let long = format!("<title>{}</title>", "word ".repeat(40));
    assert_eq!(page(&long).unwrap().unwrap().chars().count(), 80);
}

#[test]
fn misaligned_titles_are_reported() {
    // A Kelvin sign takes three bytes and its lower case one, a capital I with
    // a dot takes two and its lower case three: the texts drift apart.
    let page = "\u{212a}<title>a</title>";
    assert_eq!(page_title(page.as_bytes()), Err(Misaligned));
    let page = format!("{}<title>a</title>", "\u{130}".repeat(9));
    assert_eq!(page_title(page.as_bytes()), Err(Misaligned));
    assert_eq!(title_within("<TITLE>A</TITLE>", "<title>a</title>").as_deref(), Some("A"));
}

#[test]
fn pages_are_requested_and_read() {
    assert_eq!(
        title_request("10.0.0.1"),
        "GET / HTTP/1.0\r\nHost: 10.0.0.1\r\nUser-Agent: netscanner/0.1\r\nConnection: close\r\n\r\n"
    );
    let mut page: Vec<u8> = Vec::new();
    assert!(take_chunk(&mut page, b"abc"));
    assert!(!take_chunk(&mut page, b""));
    assert_eq!(page, b"abc");
    assert!(take_chunk(&mut page, &[b'x'; 8189]));
    assert!(!take_chunk(&mut page, b"y"));
    assert_eq!(page.len(), 8193);
    for port in [80, 8080, 8000, 8888, 8008, 8081, 5000, 7000, 32400] {
        assert!(serves_pages(port));
    }
    assert!(!serves_pages(443));
}

#[test]
fn search_message_is_fixed() {
    let message = search_message();
    assert!(message.starts_with("M-SEARCH * HTTP/1.1\r\nHOST: 239.255.255.250:1900\r\n"));
    assert!(message.ends_with("MAN: \"ssdp:discover\"\r\nMX: 1\r\nST: ssdp:all\r\n\r\n"));
    assert_eq!(message.len(), 94);
}

#[test]
fn addresses_in_identifiers() {
    let mac = |line: &str| extract_mac_from_uuid(line);
    let want = Ok(Some("aa:bb:cc:dd:ee:ff".to_string()));
    assert_eq!(mac("USN: uuid:12345678-1234-1234-1234-AABBCCDDEEFF::upnp:rootdevice"), want);
    assert_eq!(mac("NT: UUID:x-aabbccddeeff rest"), want);
    assert_eq!(mac("NT: uuid:12345678-1234-1234-1234-AABBCCDDEEFF x::y"), want);
    assert_eq!(mac("NT: uuid:1-AABBCCDDEEFF::y x"), want);
    assert_eq!(mac("NT: uuid: AABBCCDDEEFF"), Ok(None));
    assert_eq!(mac("uuid:AABBCCDDEEFF"), want);
    assert_eq!(mac("uuid:x-aabbccddeef"), Ok(None));
    assert_eq!(mac("uuid:x-aabbccddeefg"), Ok(None));
    assert_eq!(mac("no identifier"), Ok(None));
    assert_eq!(mac_in_line("UUID:AABBCCDDEEFF", "uuid:aabbccddeeff").as_deref(), Some("aa:bb:cc:dd:ee:ff"));
    assert_eq!(mac("\u{130}uuid:\u{e9}"), Err(Misaligned));
}

#[test]
fn replies_are_read() {
    let reply = b"HTTP/1.1 200 OK\r\nSERVER:\r\nServer:  Linux UPnP/1.0 \r\nserver: other\r\n\
        NT: upnp:rootdevice\r\nusn: uuid:1-aabbccddeeff::x\r\nUSN: uuid:1-112233445566::x\r\n";
    let facts = read_reply(reply).unwrap();
    assert_eq!(facts.server.as_deref(), Some("Linux UPnP/1.0"));
    assert_eq!(facts.mac.as_deref(), Some("aa:bb:cc:dd:ee:ff"));
    let facts = read_reply(b"").unwrap();
    assert_eq!(facts.server, None);
    assert_eq!(facts.mac, None);
    let known = Facts { server: None, mac: None };
    assert_eq!(note_line(known, "SERVER: X", "server: x").server.as_deref(), Some("X"));
}

#[test]
fn misaligned_replies_are_reported() {
    // A Kelvin sign takes three bytes, its lower case one.
    let packet = "usn:\u{212a}\u{212a}\u{212a}uuid:x".as_bytes();
    assert!(read_reply(packet).is_err());
    let mut replies = Replies::new();
    assert_eq!(replies.note_packet("1.1.1.1".to_string(), packet), Err(Misaligned));
    assert!(replies.heard.is_empty());
}

#[test]
fn first_replies_stay() {
    let mut replies = Replies::new();
    replies.note_packet("1.1.1.1".to_string(), b"server: A\r\n").unwrap();
    replies.note_packet("1.1.1.2".to_string(), b"server: B\r\n").unwrap();
    replies.note_packet("1.1.1.1".to_string(), b"server: C\r\nusn: uuid:aabbccddeeff\r\n").unwrap();
    assert_eq!(replies.heard.len(), 2);
    assert_eq!(replies.heard[0].0, "1.1.1.1");
    assert_eq!(replies.heard[0].1.server.as_deref(), Some("A"));
    assert_eq!(replies.heard[0].1.mac.as_deref(), Some("aa:bb:cc:dd:ee:ff"));
    assert_eq!(replies.heard[1].1.server.as_deref(), Some("B"));
}

#[test]
fn clock_shows_time_of_day() {
    assert_eq!(clock_str(0), "07:00:00");
    assert_eq!(clock_str(61_199), "23:59:59");
    assert_eq!(clock_str(61_200), "00:00:00");
    assert_eq!(clock_str(86_400), "07:00:00");
    assert_eq!(epoch_of(Some(77)), 77);
    assert_eq!(epoch_of(None), 0);
    assert_eq!(now_str().len(), 8);
    assert!(now_epoch() > 1_600_000_000);
}
