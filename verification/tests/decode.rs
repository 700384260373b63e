use gocoax::decode::{
    count_nodes, decode_eth_ports, decode_net_nodes, get, nodes_in, u64_from_pair, word_to_ipv4,
    words_to_ascii, words_to_mac, DeviceStatus, EthCounters, EthPort,
};
use gocoax::ms::parse_ms_response;
use gocoax::net::Ipv4Addr;
use gocoax::phy::{decode_fmr, rate_100mhz, rate_50mhz, PhyLink};
use gocoax::Error;

/// An answer of `len` words that are zero but for those given.
fn body(len: usize, words: &[(usize, u32)]) -> String {
    let mut list = vec!["\"0x0\"".to_string(); len];
    for (at, w) in words {
        list[*at] = format!("\"0x{w:x}\"");
    }
    format!("{{\"data\":[{}]}}", list.join(","))
}

fn load(len: usize, words: &[(usize, u32)]) -> Vec<u32> {
    parse_ms_response(&body(len, words), &|text: &str| text.to_string()).unwrap()
}

fn local() -> Vec<u32> {
    load(
        32,
        &[(0, 1), (5, 1), (11, 0x25), (12, 0x03), (21, 0x312e3138), (22, 0x2e313500)],
    )
}

fn frame() -> Vec<u32> {
    load(104, &[(13, 0x0004d8f2), (103, 0x2e)])
}

fn fmr() -> Vec<u32> {
    load(42, &[(10, 0x0c0c11f8), (11, 0x11f80c0c), (12, 0x5dae0000)])
}

#[test]
fn ip_decodes() {
    assert_eq!(word_to_ipv4(0xc00002fa), Ipv4Addr::parse("192.0.2.250").unwrap());
}

#[test]
fn mac_decodes() {
    assert_eq!(words_to_mac(0x94cc0400, 0x00010000), "94:cc:04:00:00:01");
}

#[test]
fn ascii_decodes_soc_version() {
    assert_eq!(words_to_ascii(&[0x312e3138, 0x2e313500]), "1.18.15");
}

#[test]
fn u64_pair_and_bounds() {
    assert_eq!(u64_from_pair(0, 0x0004d8f2), 317682);
    assert!(get(&[1, 2], 5, "0x14").is_err());
    assert_eq!(get(&[1, 2], 1, "0x14").unwrap(), 2);
}

#[test]
fn u64_pair_has_its_upper_word_first() {
    assert_eq!(u64_from_pair(1, 2), 0x1_0000_0002);
}

#[test]
fn eth_ports_decode_port1() {
    let eth = [0u32, 0, 0, 1, 2, 1];
    let ports = decode_eth_ports(&eth).unwrap();
    assert_eq!(ports.len(), 1);
    assert_eq!(ports[0], EthPort { port: 1, link_up: true, speed_mbps: 1000, duplex_full: true });
}

#[test]
fn no_words_are_no_ports() {
    assert!(decode_eth_ports(&[]).unwrap().is_empty());
}

#[test]
fn device_status_decodes_from_real_fixtures() {
    let local = local();
    let mac = load(2, &[(0, 0x94cc0400), (1, 0x00010000)]);
    let frame = frame();
    let ip = load(1, &[(0, 0xc00002fa)]);
    let lof = load(1, &[(0, 0x47e)]);
    let eth = load(6, &[(3, 1), (4, 2), (5, 1)]);

    let s = DeviceStatus::decode(&local, &mac, &frame, &ip, &lof, &eth).unwrap();

    assert_eq!(s.soc_version, "1.18.15");
    assert_eq!(s.moca_version, "2.5");
    assert_eq!(s.node_bitmask, 0x03);
    assert_eq!(s.node_count, 2);
    assert_eq!(s.my_node_id, 1);
    assert!(s.link_up);
    assert_eq!(s.mac, "94:cc:04:00:00:01");
    assert_eq!(s.ip.to_string(), "192.0.2.250");
    assert_eq!(s.beacon_channel_mhz, 1150);
    assert_eq!(s.eth.tx_good, 317682);
    assert_eq!(s.eth.tx_bad, 0);
    assert_eq!(s.eth.rx_dropped, 46);
    assert_eq!(s.eth_ports.len(), 1);
    assert_eq!(s.eth_ports[0].port, 1);
    assert!(s.eth_ports[0].link_up);
    assert_eq!(s.eth_ports[0].speed_mbps, 1000);
    assert!(s.eth_ports[0].duplex_full);
}

#[test]
fn short_status_answer_names_the_missing_word() {
    let words = vec![0u32; 104];
    match DeviceStatus::decode(&words[..12], &words, &words, &words, &words, &[]) {
        Err(Error::Decode { cmd, reason }) => {
            assert_eq!(cmd, "0x15");
            assert_eq!(reason, "index 12 out of range (len 12)");
        }
        other => panic!("{other:?}"),
    }
}

#[test]
fn eth_counters_bounds_checked() {
    assert!(EthCounters::decode(&[0, 1, 2]).is_err());
}

#[test]
fn eth_counters_read_all_six() {
    let mut words = vec![0u32; 104];
    for (k, at) in [12usize, 30, 48, 66, 84, 102].iter().enumerate() {
        words[*at] = 1;
        words[*at + 1] = k as u32;
    }
    let c = EthCounters::decode(&words).unwrap();
    let base = 1u64 << 32;
    assert_eq!(
        c,
        EthCounters {
            tx_good: base,
            tx_bad: base + 1,
            tx_dropped: base + 2,
            rx_good: base + 3,
            rx_bad: base + 4,
            rx_dropped: base + 5,
        }
    );
}

#[test]
fn rate_formulas_are_exact() {
    assert_eq!(rate_100mhz(1000, 10), 153);
    assert_eq!(rate_50mhz(1000, 10), 161);
}

#[test]
fn phy_rates_decode_to_ui_values() {
    let fmr = fmr();
    let links = decode_fmr(0, 0x03, &[0x25, 0x25], 0x25, &fmr).unwrap();
    let self_link = links.iter().find(|l| l.from_node == 0 && l.to_node == 0).unwrap();
    assert_eq!(self_link.nper_mbps, 701);
    let to1: &PhyLink = links.iter().find(|l| l.from_node == 0 && l.to_node == 1).unwrap();
    assert_eq!(to1.nper_mbps, 3656);
    assert_eq!(to1.vlper_mbps, 0);
}

#[test]
fn each_present_node_has_one_link_in_order() {
    let words = vec![0u32; 64];
    let links = decode_fmr(5, 0b1010_0101, &[0x25; 16], 0x25, &words).unwrap();
    let to: Vec<u32> = links.iter().map(|l| l.to_node).collect();
    assert_eq!(to, vec![0, 2, 5, 7]);
    assert!(links.iter().all(|l| l.from_node == 5 && l.nper_mbps == 0));
}

#[test]
fn short_fmr_answer_is_an_error() {
    assert!(matches!(decode_fmr(0, 0x03, &[0x25, 0x25], 0x25, &[0; 10]), Err(Error::Decode { .. })));
}

#[test]
fn net_nodes_enumerates_from_fixtures() {
    let local = local();
    let net0 = load(8, &[(0, 0x94cc0400), (1, 0x00010000), (4, 0x25)]);
    let nodes = decode_net_nodes(&local, |_id| net0.clone()).unwrap();
    assert_eq!(nodes.len(), 2);
    assert_eq!(nodes[0].node_id, 0);
    assert_eq!(nodes[0].moca_version, "2.5");
    assert!(nodes[0].mac.starts_with("94:cc:04"));
}

#[test]
fn net_nodes_stop_at_a_short_answer() {
    let local = local();
    assert!(decode_net_nodes(&local, |_id| vec![0; 4]).is_err());
    assert!(decode_net_nodes(&local[..12], |_id| vec![0; 8]).is_err());
}

#[test]
fn only_present_nodes_are_asked_each_once_and_in_order() {
    let asked = std::cell::RefCell::new(vec![]);
    let mut local = local();
    local[12] = 0x0001_8013;
    let nodes = decode_net_nodes(&local, |id| {
        asked.borrow_mut().push(id);
        vec![0x94cc0400, id << 16, 0, 0, 0x20 + id]
    })
    .unwrap();
    assert_eq!(*asked.borrow(), vec![0, 1, 4, 15]);
    let shown: Vec<(u32, &str)> =
        nodes.iter().map(|n| (n.node_id, n.moca_version.as_str())).collect();
    assert_eq!(shown, vec![(0, "2.0"), (1, "2.1"), (4, "2.4"), (15, "2.15")]);

    asked.borrow_mut().clear();
    let short = decode_net_nodes(&local, |id| {
        asked.borrow_mut().push(id);
        vec![0; if id == 1 { 4 } else { 5 }]
    });
    assert!(matches!(short, Err(Error::Decode { cmd, .. }) if cmd == "0x16"));
    assert_eq!(*asked.borrow(), vec![0, 1]);

    asked.borrow_mut().clear();
    let none = decode_net_nodes(&local[..12], |id| {
        asked.borrow_mut().push(id);
        vec![0; 5]
    });
    assert!(matches!(none, Err(Error::Decode { cmd, .. }) if cmd == "0x15"));
    assert!(asked.borrow().is_empty());
}

#[test]
fn present_nodes_ascend() {
    assert_eq!(nodes_in(0x0001_8013), vec![0, 1, 4, 15]);
    assert_eq!(count_nodes(0x0001_8013), 5);
}
