use lansight::echo::{guess_os, read_echo};

#[test]
fn answers_to_an_echo_are_read() {
    let printed = b"PING 10.0.0.1 (10.0.0.1) 56(84) bytes of data.\n\
        64 bytes from 10.0.0.1: icmp_seq=1 ttl=64 time=2.31 ms\n\n\
        --- 10.0.0.1 ping statistics ---\n\
        1 packets transmitted, 1 received, 0% packet loss, time 0ms\n";
    assert_eq!(read_echo(printed), Some((64, 2)));
    assert_eq!(read_echo(b"64 bytes from 10.0.0.9: seq=0 ttl=255 time=0.071 ms\n"), Some((255, 0)));
    assert_eq!(read_echo(b"x ttl=128 time=17 ms\r\ny ttl=1 time=1 ms"), Some((128, 17)));
    assert_eq!(read_echo(b"x ttl=256 time=1 ms\ny ttl=1 time=1 ms"), Some((1, 1)));
}

#[test]
fn without_an_answer_nothing_is_read() {
    assert_eq!(read_echo(b""), None);
    assert_eq!(read_echo(b"From 10.0.0.7 icmp_seq=1 Destination Host Unreachable\n"), None);
    assert_eq!(read_echo(b"ttl=64\ntime=3 ms\n"), None);
    assert_eq!(read_echo(b"ttl=64 time=fast\n"), None);
    assert_eq!(read_echo(b"\xff ttl= time=3\n"), None);
}

fn guess(ttl: u8, ports: &[u16], vendor: Option<&str>) -> String {
    guess_os(Some(ttl), &ports.to_vec(), vendor).unwrap()
}

#[test]
fn the_time_to_live_decides_first() {
    assert_eq!(guess_os(None, &vec![445, 3389], Some("Apple, Inc.")), None);
    assert_eq!(guess(128, &[], None), "Windows");
    assert_eq!(guess(65, &[], Some("Apple, Inc.")), "Windows");
    assert_eq!(guess(129, &[], Some("Samsung")), "Router\u{b7}IoT");
    assert_eq!(guess(255, &[445], None), "Router\u{b7}IoT");
    assert_eq!(guess(64, &[], None), "Linux");
    assert_eq!(guess(0, &[22, 80], Some("Dell Inc.")), "Linux");
}

#[test]
fn vendors_and_ports_decide_then() {
    assert_eq!(guess(64, &[], Some("APPLE, INC.")), "Apple");
    assert_eq!(guess(64, &[22, 7000], None), "Apple");
    assert_eq!(guess(63, &[], Some("Samsung Electronics Co.,Ltd")), "Android");
    assert_eq!(guess(64, &[5555], None), "Android");
    assert_eq!(guess(64, &[53, 80], None), "Router\u{b7}IoT");
    assert_eq!(guess(64, &[], Some("TP-LINK TECHNOLOGIES CO.,LTD.")), "Router\u{b7}IoT");
    assert_eq!(guess(64, &[], Some("Espressif Inc.")), "Router\u{b7}IoT");
    // the vendor of a phone goes before the port of a printer
    assert_eq!(guess(64, &[631], Some("Xiaomi Communications")), "Android");
    assert_eq!(guess(64, &[], Some("Randomized MAC")), "Linux");
}
