use gocoax::discover::{
    cidr_hosts, fingerprint, is_moca_server, mac_filter, mac_oui_matches, moca_ouis,
    parse_arp_table, Found,
};
use gocoax::net::Ipv4Addr;
use gocoax::Error;

fn ip(s: &str) -> Ipv4Addr {
    Ipv4Addr::parse(s).unwrap()
}

fn message(r: Result<Vec<Ipv4Addr>, Error>) -> String {
    match r {
        Err(Error::Config(text)) => text,
        other => panic!("{other:?}"),
    }
}

#[test]
fn detects_interniche_server() {
    assert!(is_moca_server("InterNiche Technologies WebServer 2.0"));
    assert!(is_moca_server("interniche technologies webserver 2.0"));
    assert!(!is_moca_server("nginx/1.25"));
    assert!(!is_moca_server(""));
}

#[test]
fn fingerprints_interniche_host() {
    let host = ip("127.0.0.1");
    let header = "InterNiche Technologies WebServer 2.0";
    assert_eq!(
        fingerprint(host, Some(header)),
        Some(Found { ip: host, server: Some(header.to_string()), mac: None })
    );
    assert_eq!(fingerprint(host, Some("nginx/1.25")), None);
    assert_eq!(fingerprint(host, None), None);
}

#[test]
fn cidr_24_expands_to_254_hosts() {
    let hosts = cidr_hosts("192.0.2.0/24").unwrap();
    assert_eq!(hosts.len(), 254);
    assert_eq!(hosts[0], ip("192.0.2.1"));
    assert_eq!(hosts[253], ip("192.0.2.254"));
}

#[test]
fn cidr_rejects_too_wide_and_malformed() {
    assert!(cidr_hosts("10.0.0.0/8").is_err());
    assert!(cidr_hosts("not-a-cidr").is_err());
    assert!(cidr_hosts("192.168.1.0/33").is_err());
}

#[test]
fn cidr_errors_say_why() {
    assert_eq!(message(cidr_hosts("no\tcidr")), "bad cidr \"no\\tcidr\"");
    assert_eq!(message(cidr_hosts("1.2.3/24")), "bad cidr address \"1.2.3\"");
    assert_eq!(message(cidr_hosts("1.2.3.04/24")), "bad cidr address \"1.2.3.04\"");
    assert_eq!(message(cidr_hosts("1.2.3.4/x/2")), "bad cidr prefix \"x/2\"");
    assert_eq!(message(cidr_hosts("1.2.3.4/15")), "cidr prefix 15 out of range 16..=32");
}

#[test]
fn small_blocks_list_all_their_addresses() {
    assert_eq!(cidr_hosts("10.1.2.3/32").unwrap(), vec![ip("10.1.2.3")]);
    assert_eq!(cidr_hosts("10.1.2.3/31").unwrap(), vec![ip("10.1.2.2"), ip("10.1.2.3")]);
    assert_eq!(cidr_hosts("10.1.2.3/30").unwrap(), vec![ip("10.1.2.1"), ip("10.1.2.2")]);
}

#[test]
fn the_widest_and_the_last_block_fit() {
    assert_eq!(cidr_hosts("10.1.2.3/16").unwrap().len(), 65534);
    let last = cidr_hosts("255.255.255.255/+31").unwrap();
    assert_eq!(last, vec![ip("255.255.255.254"), ip("255.255.255.255")]);
}

#[test]
fn parses_bsd_arp_output() {
    let text = "\
? (192.0.2.250) at 94:cc:4:00:00:01 on en0 ifscope [ethernet]
? (192.0.2.1) at 0:11:22:33:44:55 on en0 ifscope [ethernet]";
    let entries = parse_arp_table(text);
    assert!(entries
        .iter()
        .any(|(ip, mac)| ip.to_string() == "192.0.2.250" && mac.contains("94:cc")));
    assert_eq!(entries.len(), 2);
}

#[test]
fn arp_lines_without_an_entry_are_passed_over() {
    let text = "nothing\n? (192.0.2.300) at 1:2:3\n? (192.0.2.1) on en0\r\n? (192.0.2.2) at\n? )x(192.0.2.3) at  a\tb\r\n\n";
    let entries = parse_arp_table(text);
    assert_eq!(entries, vec![(ip("192.0.2.3"), "a".to_string())]);
}

#[test]
fn oui_matching_is_normalized() {
    let ouis = moca_ouis();
    assert!(mac_oui_matches("94:cc:04:00:00:01", &ouis));
    assert!(mac_oui_matches("94-CC-04-00-00-01", &ouis));
    assert!(mac_oui_matches("94:cc:4:00:00:01", &ouis));
    assert!(!mac_oui_matches("00:11:22:33:44:55", &ouis));
}

#[test]
fn short_addresses_match_no_maker() {
    assert!(!mac_oui_matches("94:cc", &["94cc", "94cc04"]));
    assert!(mac_oui_matches("::", &["000000"]));
    assert!(mac_oui_matches("A:b:C", &["0A0B0c"]));
}

#[test]
fn filters_the_arp_table_by_maker() {
    let text = "\
? (192.0.2.250) at 94:cc:4:00:00:01 on en0 ifscope [ethernet]
? (192.0.2.1) at 0:11:22:33:44:55 on en0 ifscope [ethernet]
? (192.0.2.251) at 94:CC:04:0:0:2 on en0";
    assert_eq!(
        mac_filter(text, &moca_ouis()),
        vec![
            Found {
                ip: ip("192.0.2.250"),
                server: None,
                mac: Some("94:cc:4:00:00:01".to_string())
            },
            Found { ip: ip("192.0.2.251"), server: None, mac: Some("94:CC:04:0:0:2".to_string()) },
        ]
    );
}

#[test]
fn addresses_read_back_as_written() {
    for word in [0u32, 1, 0x7f000001, 0xc00002fa, 0xffffffff] {
        let ip = Ipv4Addr::from_word(word);
        assert_eq!(ip.to_word(), word);
        assert_eq!(Ipv4Addr::parse(&ip.to_string()), Some(ip));
    }
    for bad in ["", "1.2.3", "1.2.3.4.5", "1.2.3.256", "01.2.3.4", "1.2.3.+4", " 1.2.3.4"] {
        assert_eq!(Ipv4Addr::parse(bad), None);
    }
}

#[test]
fn addresses_match_however_they_are_written() {
    for mac in ["94:cc:04", "94-CC:4", "94:cC-04:1:2:3", "94-cc-4-zz", "94:cc:04:"] {
        assert!(mac_oui_matches(mac, &["94CC04"]), "{mac}");
        assert!(!mac_oui_matches(mac, &[]), "{mac}");
        assert!(!mac_oui_matches(mac, &["94cc05"]), "{mac}");
    }
}
