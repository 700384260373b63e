use gocoax::decode::{DeviceStatus, EthCounters, EthPort};
use gocoax::exporter::metrics::{render, DeviceOutcome};
use gocoax::exposition::escaped;
use gocoax::net::Ipv4Addr;
use gocoax::phy::{PhyLink, PhyRates};

fn status() -> DeviceStatus {
    DeviceStatus {
        soc_version: "1.18.15".to_string(),
        moca_version: "2.5".to_string(),
        node_bitmask: 3,
        node_count: 2,
        my_node_id: 1,
        link_up: true,
        mac: "94:cc:04:00:00:01".to_string(),
        ip: Ipv4Addr::from_word(0xc00002fa),
        beacon_channel_mhz: 1150,
        eth: EthCounters {
            tx_good: 317682,
            tx_bad: 1,
            tx_dropped: 2,
            rx_good: 3,
            rx_bad: 4,
            rx_dropped: 46,
        },
        eth_ports: vec![EthPort { port: 1, link_up: true, speed_mbps: 1000, duplex_full: true }],
    }
}

fn down<'a>(reason: &'a str, counts: &'a [(&'a str, u64)]) -> DeviceOutcome<'a> {
    DeviceOutcome {
        name: "ff",
        host: "10.0.0.1",
        up: false,
        error_reason: Some(reason),
        duration_secs: "8",
        status: None,
        phy: None,
        error_counts: counts,
        last_success_ts: None,
    }
}

#[test]
fn down_device_emits_only_health_lines() {
    let out = render(&[down("timeout", &[("timeout", 1)])]);
    assert!(out.contains("gocoax_up{device=\"ff\"} 0"));
    assert!(out.contains("gocoax_scrape_errors_total{device=\"ff\",reason=\"timeout\"}"));
    assert!(!out.contains("gocoax_info{device=\"ff\""));
}

#[test]
fn renders_down_device_without_data() {
    let out = render(&[down("timeout", &[("timeout", 1)])]);
    assert!(out.contains("gocoax_up{device=\"ff\"} 0"));
    assert!(out.contains("gocoax_scrape_errors_total{device=\"ff\",reason=\"timeout\"}"));
    assert!(!out.contains("gocoax_info{device=\"ff\""));
}

#[test]
fn healthy_device_without_error_reason_emits_no_errors_block() {
    let out = render(&[DeviceOutcome {
        name: "ff",
        host: "10.0.0.1",
        up: true,
        error_reason: None,
        duration_secs: &0.2f64.to_string(),
        status: None,
        phy: None,
        error_counts: &[],
        last_success_ts: None,
    }]);
    assert!(out.contains("gocoax_up{device=\"ff\"} 1"));
    assert!(!out.contains("gocoax_scrape_errors_total"));
}

#[test]
fn scrape_errors_render_real_accumulated_totals() {
    let out = render(&[down("auth", &[("timeout", 3), ("auth", 5)])]);
    assert!(out.contains("gocoax_scrape_errors_total{device=\"ff\",reason=\"timeout\"} 3"));
    assert!(out.contains("gocoax_scrape_errors_total{device=\"ff\",reason=\"auth\"} 5"));
}

#[test]
fn last_success_timestamp_emitted_only_when_present() {
    let ts = 1_700_000_000.0f64.to_string();
    let out = render(&[
        DeviceOutcome {
            name: "ff",
            host: "10.0.0.1",
            up: true,
            error_reason: None,
            duration_secs: &0.1f64.to_string(),
            status: None,
            phy: None,
            error_counts: &[],
            last_success_ts: Some(&ts),
        },
        DeviceOutcome {
            name: "gg",
            host: "10.0.0.2",
            up: false,
            error_reason: Some("timeout"),
            duration_secs: &8.0f64.to_string(),
            status: None,
            phy: None,
            error_counts: &[("timeout", 1)],
            last_success_ts: None,
        },
    ]);
    assert!(out.contains("gocoax_last_success_timestamp_seconds{device=\"ff\"} 1700000000"));
    assert!(!out.contains("gocoax_last_success_timestamp_seconds{device=\"gg\"}"));
}

#[test]
fn down_device_with_partial_phy_data_still_emits_no_phy_lines() {
    let phy = PhyRates {
        gcd_mbps: vec![(0, 701)],
        links: vec![PhyLink { from_node: 0, to_node: 1, nper_mbps: 3656, vlper_mbps: 0 }],
        node_versions: vec![(0, 0x25), (1, 0x25)],
    };

    let out = render(&[DeviceOutcome {
        name: "x",
        host: "10.0.0.2",
        up: false,
        error_reason: Some("decode"),
        duration_secs: &1.0f64.to_string(),
        status: None,
        phy: Some(&phy),
        error_counts: &[("decode", 1)],
        last_success_ts: None,
    }]);

    assert!(out.contains("gocoax_up{device=\"x\"} 0"));
    assert!(out.contains("gocoax_scrape_errors_total{device=\"x\",reason=\"decode\"}"));
    assert!(!out.contains("gocoax_phy_rate_mbps"));
    assert!(!out.contains("gocoax_phy_rate_gcd_mbps"));
    assert!(!out.contains("gocoax_node_moca_version"));
}

#[test]
fn renders_up_device_with_status_data() {
    let status = status();
    let phy = PhyRates { node_versions: vec![(0, 0x25), (1, 0x25)], ..Default::default() };

    let out = render(&[DeviceOutcome {
        name: "ff",
        host: "192.0.2.250",
        up: true,
        error_reason: None,
        duration_secs: &0.42f64.to_string(),
        status: Some(&status),
        phy: Some(&phy),
        error_counts: &[],
        last_success_ts: Some(&1_700_000_000.0f64.to_string()),
    }]);

    assert!(out.contains("gocoax_up{device=\"ff\"} 1"));
    assert!(out.contains(r#"gocoax_info{device="ff",host="192.0.2.250",mac="94:cc:04:00:00:01""#));
    assert!(out.contains("gocoax_moca_nodes{device=\"ff\"} 2"));
    assert!(out.contains(
        "gocoax_ethernet_rx_frames_total{device=\"ff\",port=\"1\",status=\"dropped\"} 46"
    ));
    assert!(out.contains("gocoax_ethernet_link_up{device=\"ff\",port=\"1\"} 1"));
    assert!(out.contains("gocoax_ethernet_speed_mbps{device=\"ff\",port=\"1\"} 1000"));
    assert!(out.contains("gocoax_node_moca_version{device=\"ff\",node=\"0\"} 25"));
    assert!(out.contains("gocoax_node_moca_version{device=\"ff\",node=\"1\"} 25"));
}

#[test]
fn a_full_scrape_reads_line_by_line() {
    let status = status();
    let phy = PhyRates {
        gcd_mbps: vec![(0, 701)],
        links: vec![PhyLink { from_node: 0, to_node: 1, nper_mbps: 3656, vlper_mbps: 9 }],
        node_versions: vec![(0, 0x1f)],
    };
    let out = render(&[DeviceOutcome {
        name: "a\"b",
        host: "h",
        up: true,
        error_reason: None,
        duration_secs: "0.5",
        status: Some(&status),
        phy: Some(&phy),
        error_counts: &[("auth", 7)],
        last_success_ts: Some("17"),
    }]);
    let expected = r##"# HELP gocoax_up Current device read health (1=up, 0=down).
# TYPE gocoax_up gauge
gocoax_up{device="a\"b"} 1
# HELP gocoax_scrape_errors_total Count of scrape errors by classified reason.
# TYPE gocoax_scrape_errors_total counter
gocoax_scrape_errors_total{device="a\"b",reason="auth"} 7
# HELP gocoax_scrape_duration_seconds Per-device scrape duration in seconds.
# TYPE gocoax_scrape_duration_seconds gauge
gocoax_scrape_duration_seconds{device="a\"b"} 0.5
# HELP gocoax_last_success_timestamp_seconds Unix timestamp of the device's last fully successful scrape.
# TYPE gocoax_last_success_timestamp_seconds gauge
gocoax_last_success_timestamp_seconds{device="a\"b"} 17
# HELP gocoax_info Device identity/firmware info (label carrier, always 1).
# TYPE gocoax_info gauge
gocoax_info{device="a\"b",host="h",mac="94:cc:04:00:00:01",ip="192.0.2.250",soc_version="1.18.15",moca_version="2.5"} 1
# HELP gocoax_moca_link_up Whether the device's MoCA link is up.
# TYPE gocoax_moca_link_up gauge
gocoax_moca_link_up{device="a\"b"} 1
# HELP gocoax_moca_nodes Number of nodes on the MoCA network.
# TYPE gocoax_moca_nodes gauge
gocoax_moca_nodes{device="a\"b"} 2
# HELP gocoax_phy_rate_mbps PHY rate between a node pair (self pair = per-node rate).
# TYPE gocoax_phy_rate_mbps gauge
gocoax_phy_rate_mbps{device="a\"b",from_node="0",to_node="1",type="nper"} 3656
gocoax_phy_rate_mbps{device="a\"b",from_node="0",to_node="1",type="vlper"} 9
# HELP gocoax_phy_rate_gcd_mbps Per-node GCD PHY rate.
# TYPE gocoax_phy_rate_gcd_mbps gauge
gocoax_phy_rate_gcd_mbps{device="a\"b",node="0"} 701
# HELP gocoax_ethernet_tx_frames_total Ethernet tx frame counters by status.
# TYPE gocoax_ethernet_tx_frames_total counter
gocoax_ethernet_tx_frames_total{device="a\"b",port="1",status="good"} 317682
gocoax_ethernet_tx_frames_total{device="a\"b",port="1",status="bad"} 1
gocoax_ethernet_tx_frames_total{device="a\"b",port="1",status="dropped"} 2
# HELP gocoax_ethernet_rx_frames_total Ethernet rx frame counters by status.
# TYPE gocoax_ethernet_rx_frames_total counter
gocoax_ethernet_rx_frames_total{device="a\"b",port="1",status="good"} 3
gocoax_ethernet_rx_frames_total{device="a\"b",port="1",status="bad"} 4
gocoax_ethernet_rx_frames_total{device="a\"b",port="1",status="dropped"} 46
# HELP gocoax_ethernet_link_up Whether an ethernet port's link is up.
# TYPE gocoax_ethernet_link_up gauge
gocoax_ethernet_link_up{device="a\"b",port="1"} 1
# HELP gocoax_ethernet_speed_mbps Negotiated ethernet port speed in Mbps.
# TYPE gocoax_ethernet_speed_mbps gauge
gocoax_ethernet_speed_mbps{device="a\"b",port="1"} 1000
# HELP gocoax_node_moca_version Per-node MoCA protocol version (e.g. 25 = 2.5).
# TYPE gocoax_node_moca_version gauge
gocoax_node_moca_version{device="a\"b",node="0"} 25
"##;
    assert_eq!(out, expected);
}

#[test]
fn nothing_scraped_still_announces_health() {
    assert_eq!(
        render(&[]),
        "# HELP gocoax_up Current device read health (1=up, 0=down).\n\
         # TYPE gocoax_up gauge\n\
         # HELP gocoax_scrape_duration_seconds Per-device scrape duration in seconds.\n\
         # TYPE gocoax_scrape_duration_seconds gauge\n"
    );
}

#[test]
fn label_values_are_escaped() {
    assert_eq!(escaped("a\\b\"c\nd"), "a\\\\b\\\"c\\nd");
    assert_eq!(escaped(""), "");
}
