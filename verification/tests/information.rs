use dice::{
    parse_line, requested_address, AddrParseError, Information, Ipv4Address, ToIpAddrs, KEY,
};

#[test]
fn credential_construction() {
    let bad = Information::new("alice", "secret", "www", "example.com", "999.1.1.1");
    assert_eq!(bad.err(), Some(AddrParseError));
    let info = Information::new("alice", "secret", "www", "example.com", "203.0.113.5").unwrap();
    assert_eq!(info.ipaddr, Ipv4Address::new(203, 0, 113, 5));
    assert_eq!(info.ipaddr.octets(), [203, 0, 113, 5]);
    assert_eq!(info.user, "alice");
    assert_eq!(info.pass, "secret");
    assert_eq!(info.host, "www");
    assert_eq!(info.dom, "example.com");
}

#[test]
fn an_address_can_be_given_in_three_ways() {
    let addr = Ipv4Address::new(192, 0, 2, 7);
    assert_eq!("192.0.2.7".to_ip_addrs(), Ok(addr));
    assert_eq!(String::from("192.0.2.7").to_ip_addrs(), Ok(addr));
    assert_eq!(addr.to_ip_addrs(), Ok(addr));
    let info = Information::new("", "", "", "", String::from("192.0.2.7")).unwrap();
    assert_eq!(info.ipaddr, addr);
    let info = Information::new("", "", "", "", addr).unwrap();
    assert_eq!(info.ipaddr, addr);
}

#[test]
fn only_dotted_quads_are_addresses() {
    assert_eq!(Ipv4Address::parse("0.0.0.0"), Ok(Ipv4Address::new(0, 0, 0, 0)));
    assert_eq!(Ipv4Address::parse("255.255.255.255"), Ok(Ipv4Address::new(255, 255, 255, 255)));
    assert_eq!(Ipv4Address::parse("1.22.233.4"), Ok(Ipv4Address::new(1, 22, 233, 4)));
    for text in [
        "", ".", "1", "1.2.3", "1.2.3.", "1.2.3.4.", "1.2.3.4.5", ".1.2.3.4", "1..2.3", "256.1.1.1",
        "1.1.1.256", "01.2.3.4", "1.2.3.04", "00.0.0.0", "1.2.3.4 ", " 1.2.3.4", "1.2.3.-4",
        "+1.2.3.4", "1.2.3.4\n", "a.b.c.d", "1,2,3,4", "1.2.3.0x4", "1000.1.1.1", "0001.1.1.1",
        "999.1.1.1", "1.2.3.٤",
    ] {
        assert_eq!(Ipv4Address::parse(text), Err(AddrParseError), "{:?}", text);
    }
}

#[test]
fn an_address_is_read_back_from_its_text() {
    for addr in [
        Ipv4Address::new(0, 0, 0, 0),
        Ipv4Address::new(9, 10, 99, 100),
        Ipv4Address::new(101, 110, 199, 200),
        Ipv4Address::new(255, 250, 205, 1),
        Ipv4Address::new(203, 0, 113, 5),
    ] {
        assert_eq!(Ipv4Address::parse(&addr.to_string()), Ok(addr));
    }
    assert_eq!(Ipv4Address::new(9, 10, 99, 100).to_string(), "9.10.99.100");
    assert_eq!(Ipv4Address::new(101, 110, 199, 200).to_string(), "101.110.199.200");
    assert_eq!(Ipv4Address::new(255, 250, 205, 1).to_string(), "255.250.205.1");
}

#[test]
fn lines_set_fields() {
    assert_eq!(parse_line("user=alice"), Some((KEY::USER, String::from("alice"))));
    assert_eq!(parse_line("pass=secret"), Some((KEY::PASS, String::from("secret"))));
    assert_eq!(parse_line("host=www"), Some((KEY::HOST, String::from("www"))));
    assert_eq!(parse_line("dom=example.com"), Some((KEY::DOM, String::from("example.com"))));
}

#[test]
fn a_line_is_told_by_how_it_begins() {
    assert_eq!(parse_line("username=alice"), Some((KEY::USER, String::from("alice"))));
    assert_eq!(parse_line("password = x"), Some((KEY::PASS, String::from(" x"))));
    assert_eq!(parse_line("domain=a=b"), Some((KEY::DOM, String::from("a=b"))));
    assert_eq!(parse_line("host="), Some((KEY::HOST, String::new())));
    assert_eq!(parse_line("dom=日本語"), Some((KEY::DOM, String::from("日本語"))));
}

#[test]
fn other_lines_set_nothing() {
    assert_eq!(parse_line(""), None);
    assert_eq!(parse_line("user"), None);
    assert_eq!(parse_line("=user"), None);
    assert_eq!(parse_line("use=r"), None);
    assert_eq!(parse_line("do=m"), None);
    assert_eq!(parse_line(" user=alice"), None);
    assert_eq!(parse_line("USER=alice"), None);
    assert_eq!(parse_line("ip=1.2.3.4"), None);
}

#[test]
fn keys_have_protocol_names() {
    assert_eq!(KEY::USER.to_string(), "USERID");
    assert_eq!(KEY::PASS.to_string(), "PASSWORD");
    assert_eq!(KEY::HOST.to_string(), "HOSTNAME");
    assert_eq!(KEY::DOM.to_string(), "DOMNAME");
}

#[test]
fn fields_are_reached_by_key() {
    let mut info = Information::new("", "", "", "", Ipv4Address::new(0, 0, 0, 0)).unwrap();
    for (key, value) in [(KEY::USER, "u"), (KEY::PASS, "p"), (KEY::HOST, "h"), (KEY::DOM, "d")] {
        assert_eq!(info[key], "");
        info[key] = String::from(value);
        assert_eq!(info[key], value);
    }
    assert_eq!(info.user, "u");
    assert_eq!(info.pass, "p");
    assert_eq!(info.host, "h");
    assert_eq!(info.dom, "d");
    assert_eq!(info.ipaddr, Ipv4Address::new(0, 0, 0, 0));
}

#[test]
fn the_command_line_names_one_address() {
    let one = [String::from("203.0.113.5")];
    assert_eq!(requested_address(false, &one), Some(Ipv4Address::new(203, 0, 113, 5)));
    assert_eq!(requested_address(true, &one), None);
    assert_eq!(requested_address(false, &[]), None);
    assert_eq!(requested_address(false, &[String::from("localhost")]), None);
    let two = [String::from("203.0.113.5"), String::from("203.0.113.6")];
    assert_eq!(requested_address(false, &two), None);
}
