use cybersentinel::net::{IpAddr, IpNetwork};

fn text(address: &str) -> Option<String> {
    IpAddr::parse(address).map(|address| address.to_text())
}

#[test]
fn addresses_print_in_their_short_form() {
    for (written, printed) in [
        ("0.0.0.0", "0.0.0.0"),
        ("255.255.255.255", "255.255.255.255"),
        ("10.1.2.3", "10.1.2.3"),
        ("::", "::"),
        ("::1", "::1"),
        ("1::", "1::"),
        ("0:0:0:0:0:0:0:1", "::1"),
        ("2001:0db8:0:0:1:0:0:1", "2001:db8::1:0:0:1"),
        ("1:0:0:2:0:0:3:4", "1::2:0:0:3:4"),
        ("1:0:0:2:0:0:0:4", "1:0:0:2::4"),
        ("1:0:2:3:4:5:6:7", "1:0:2:3:4:5:6:7"),
        ("1:2:3:4:5:6:7::", "1:2:3:4:5:6:7:0"),
        ("::2:3:4:5:6:7:8", "0:2:3:4:5:6:7:8"),
        ("FE80::ABCD", "fe80::abcd"),
        ("::ffff:192.0.2.1", "::ffff:192.0.2.1"),
        ("64:ff9b::192.0.2.33", "64:ff9b::c000:221"),
    ] {
        assert_eq!(text(written).as_deref(), Some(printed), "{written}");
    }
}

#[test]
fn what_prints_reads_back() {
    for written in ["0.0.0.0", "192.0.2.7", "::", "::1", "1::", "2001:db8::1:0:0:1"] {
        let address = IpAddr::parse(written).expect(written);
        assert_eq!(IpAddr::parse(&address.to_text()), Some(address));
    }
}

#[test]
fn what_is_no_address_is_refused() {
    for written in [
        "",
        "1",
        "1.2.3",
        "1.2.3.4.5",
        "1.2.3.256",
        "01.2.3.4",
        "1.2.3.4 ",
        "+1.2.3.4",
        ":",
        ":::",
        "1::2::3",
        "1:2:3:4:5:6:7",
        "1:2:3:4:5:6:7:8:9",
        "::1:2:3:4:5:6:7:8",
        "12345::",
        "g::",
        "::1.2.3",
        "fe80::1%eth0",
        "[::1]",
    ] {
        assert_eq!(text(written), None, "{written}");
    }
}

#[test]
fn a_network_covers_what_shares_its_prefix() {
    let network = IpNetwork::new(IpAddr::parse("10.1.0.0").expect("address"), 16).expect("network");
    assert_eq!(network.prefix_len(), 16);
    assert!(network.contains(IpAddr::v4(10, 1, 255, 255)));
    assert!(!network.contains(IpAddr::v4(10, 2, 0, 0)));
    assert!(!network.contains(IpAddr::parse("::ffff:10.1.0.1").expect("address")));
    assert!(IpNetwork::new(IpAddr::v4(10, 0, 0, 0), 33).is_none());
    assert!(IpNetwork::new(IpAddr::parse("::").expect("address"), 129).is_none());

    let everything = IpNetwork::new(IpAddr::v4(0, 0, 0, 0), 0).expect("network");
    assert!(everything.contains(IpAddr::v4(203, 0, 113, 9)));
    assert!(!everything.contains(IpAddr::parse("::1").expect("address")));

    let one = IpNetwork::host(IpAddr::v4(10, 0, 0, 1));
    assert!(one.contains(IpAddr::v4(10, 0, 0, 1)));
    assert!(!one.contains(IpAddr::v4(10, 0, 0, 2)));
}
