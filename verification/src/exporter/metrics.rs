//! The metrics of a scrape as text.
//!
//! Nothing here reads a clock or a device: moments and durations come as the
//! texts that are to be shown.

use crate::decode::{DeviceStatus, DeviceStatusView, EthPort};
use crate::exposition::{
    block, device_line, device_row, esc, escaped, flag, flag_text, header, push_block, push_header,
};
use crate::phy::{PhyLink, PhyRates, PhyRatesView};
use crate::text::{
    cat, decimal, decimal_text, lemma_cat_append, lemma_cat_empty, lemma_cat_step,
};
use vstd::prelude::*;

verus! {

/// What came of scraping one device.
pub struct DeviceOutcome<'a> {
    pub name: &'a str,
    pub host: &'a str,
    pub up: bool,
    /// Why this scrape failed, if it did.
    pub error_reason: Option<&'a str>,
    /// How long the scrape took, in seconds.
    pub duration_secs: &'a str,
    pub status: Option<&'a DeviceStatus>,
    pub phy: Option<&'a PhyRates>,
    /// How often scrapes of the device have failed, by reason.
    pub error_counts: &'a [(&'a str, u64)],
    /// When the device was last scraped without a failure, in seconds since the
    /// Unix epoch.
    pub last_success_ts: Option<&'a str>,
}

/// A [`DeviceOutcome`] with its texts and lists as sequences.
#[verifier::ext_equal]
pub struct OutcomeView {
    pub name: Seq<char>,
    pub host: Seq<char>,
    pub up: bool,
    pub error_reason: Option<Seq<char>>,
    pub duration_secs: Seq<char>,
    pub status: Option<DeviceStatusView>,
    pub phy: Option<PhyRatesView>,
    pub error_counts: Seq<(Seq<char>, u64)>,
    pub last_success_ts: Option<Seq<char>>,
}

/// Counts with their reasons as character sequences.
pub open spec fn count_views(counts: Seq<(&str, u64)>) -> Seq<(Seq<char>, u64)> {
    counts.map_values(|count: (&str, u64)| (count.0@, count.1))
}

/// A text that may be missing, by its view.
pub open spec fn opt_str_view(text: Option<&str>) -> Option<Seq<char>> {
    match text {
        Some(s) => Some(s@),
        None => None,
    }
}

impl View for DeviceOutcome<'_> {
    type V = OutcomeView;

    open spec fn view(&self) -> OutcomeView {
        OutcomeView {
            name: self.name@,
            host: self.host@,
            up: self.up,
            error_reason: opt_str_view(self.error_reason),
            duration_secs: self.duration_secs@,
            status: match self.status {
                Some(s) => Some(s@),
                None => None,
            },
            phy: match self.phy {
                Some(p) => Some(p@),
                None => None,
            },
            error_counts: count_views(self.error_counts@),
            last_success_ts: opt_str_view(self.last_success_ts),
        }
    }
}

/// The outcomes by their views.
pub open spec fn outcome_views(outcomes: Seq<DeviceOutcome<'_>>) -> Seq<OutcomeView> {
    outcomes.map_values(|o: DeviceOutcome<'_>| o@)
}

/// The metrics, each on its own.
#[derive(Debug, Clone, Copy, PartialEq, Eq, Structural)]
pub enum Metric {
    Up,
    ScrapeErrors,
    ScrapeDuration,
    LastSuccess,
    Info,
    LinkUp,
    Nodes,
    PhyRate,
    PhyRateGcd,
    TxFrames,
    RxFrames,
    EthernetLinkUp,
    EthernetSpeed,
    NodeVersion,
}

/// The metrics in the order in which they are shown.
pub open spec fn catalog() -> Seq<Metric> {
    seq![
        Metric::Up,
        Metric::ScrapeErrors,
        Metric::ScrapeDuration,
        Metric::LastSuccess,
        Metric::Info,
        Metric::LinkUp,
        Metric::Nodes,
        Metric::PhyRate,
        Metric::PhyRateGcd,
        Metric::TxFrames,
        Metric::RxFrames,
        Metric::EthernetLinkUp,
        Metric::EthernetSpeed,
        Metric::NodeVersion,
    ]
}

impl Metric {
    pub fn name(&self) -> (r: &'static str)
        ensures
            r@ == self.spec_name(),
    {
        match self {
            Metric::Up => "gocoax_up",
            Metric::ScrapeErrors => "gocoax_scrape_errors_total",
            Metric::ScrapeDuration => "gocoax_scrape_duration_seconds",
            Metric::LastSuccess => "gocoax_last_success_timestamp_seconds",
            Metric::Info => "gocoax_info",
            Metric::LinkUp => "gocoax_moca_link_up",
            Metric::Nodes => "gocoax_moca_nodes",
            Metric::PhyRate => "gocoax_phy_rate_mbps",
            Metric::PhyRateGcd => "gocoax_phy_rate_gcd_mbps",
            Metric::TxFrames => "gocoax_ethernet_tx_frames_total",
            Metric::RxFrames => "gocoax_ethernet_rx_frames_total",
            Metric::EthernetLinkUp => "gocoax_ethernet_link_up",
            Metric::EthernetSpeed => "gocoax_ethernet_speed_mbps",
            Metric::NodeVersion => "gocoax_node_moca_version",
        }
    }

    pub open spec fn spec_name(self) -> Seq<char> {
        match self {
            Metric::Up => "gocoax_up"@,
            Metric::ScrapeErrors => "gocoax_scrape_errors_total"@,
            Metric::ScrapeDuration => "gocoax_scrape_duration_seconds"@,
            Metric::LastSuccess => "gocoax_last_success_timestamp_seconds"@,
            Metric::Info => "gocoax_info"@,
            Metric::LinkUp => "gocoax_moca_link_up"@,
            Metric::Nodes => "gocoax_moca_nodes"@,
            Metric::PhyRate => "gocoax_phy_rate_mbps"@,
            Metric::PhyRateGcd => "gocoax_phy_rate_gcd_mbps"@,
            Metric::TxFrames => "gocoax_ethernet_tx_frames_total"@,
            Metric::RxFrames => "gocoax_ethernet_rx_frames_total"@,
            Metric::EthernetLinkUp => "gocoax_ethernet_link_up"@,
            Metric::EthernetSpeed => "gocoax_ethernet_speed_mbps"@,
            Metric::NodeVersion => "gocoax_node_moca_version"@,
        }
    }

    pub open spec fn spec_help(self) -> Seq<char> {
        match self {
            Metric::Up => "Current device read health (1=up, 0=down)."@,
            Metric::ScrapeErrors => "Count of scrape errors by classified reason."@,
            Metric::ScrapeDuration => "Per-device scrape duration in seconds."@,
            Metric::LastSuccess =>
                "Unix timestamp of the device's last fully successful scrape."@,
            Metric::Info => "Device identity/firmware info (label carrier, always 1)."@,
            Metric::LinkUp => "Whether the device's MoCA link is up."@,
            Metric::Nodes => "Number of nodes on the MoCA network."@,
            Metric::PhyRate => "PHY rate between a node pair (self pair = per-node rate)."@,
            Metric::PhyRateGcd => "Per-node GCD PHY rate."@,
            Metric::TxFrames => "Ethernet tx frame counters by status."@,
            Metric::RxFrames => "Ethernet rx frame counters by status."@,
            Metric::EthernetLinkUp => "Whether an ethernet port's link is up."@,
            Metric::EthernetSpeed => "Negotiated ethernet port speed in Mbps."@,
            Metric::NodeVersion => "Per-node MoCA protocol version (e.g. 25 = 2.5)."@,
        }
    }

    pub fn help(&self) -> (r: &'static str)
        ensures
            r@ == self.spec_help(),
    {
        match self {
            Metric::Up => "Current device read health (1=up, 0=down).",
            Metric::ScrapeErrors => "Count of scrape errors by classified reason.",
            Metric::ScrapeDuration => "Per-device scrape duration in seconds.",
            Metric::LastSuccess => "Unix timestamp of the device's last fully successful scrape.",
            Metric::Info => "Device identity/firmware info (label carrier, always 1).",
            Metric::LinkUp => "Whether the device's MoCA link is up.",
            Metric::Nodes => "Number of nodes on the MoCA network.",
            Metric::PhyRate => "PHY rate between a node pair (self pair = per-node rate).",
            Metric::PhyRateGcd => "Per-node GCD PHY rate.",
            Metric::TxFrames => "Ethernet tx frame counters by status.",
            Metric::RxFrames => "Ethernet rx frame counters by status.",
            Metric::EthernetLinkUp => "Whether an ethernet port's link is up.",
            Metric::EthernetSpeed => "Negotiated ethernet port speed in Mbps.",
            Metric::NodeVersion => "Per-node MoCA protocol version (e.g. 25 = 2.5).",
        }
    }

    /// Whether the metric counts up.
    pub open spec fn is_counter(self) -> bool {
        self is ScrapeErrors || self is TxFrames || self is RxFrames
    }

    pub open spec fn spec_kind(self) -> Seq<char> {
        if self.is_counter() {
            "counter"@
        } else {
            "gauge"@
        }
    }

    pub fn kind(&self) -> (r: &'static str)
        ensures
            r@ == self.spec_kind(),
    {
        match self {
            Metric::ScrapeErrors | Metric::TxFrames | Metric::RxFrames => "counter",
            _ => "gauge",
        }
    }

    /// Whether the metric is announced even where it has no samples.
    pub open spec fn always_shown(self) -> bool {
        self is Up || self is ScrapeDuration
    }

    /// Whether the metric speaks of the scrape rather than of what was read.
    pub open spec fn is_health(self) -> bool {
        self is Up || self is ScrapeErrors || self is ScrapeDuration || self is LastSuccess
    }

    /// Whether the metric speaks of the rates between nodes.
    pub open spec fn is_phy(self) -> bool {
        self is PhyRate || self is PhyRateGcd || self is NodeVersion
    }
}

/// A sample of a device with one more label. The label's value is shown as it
/// is.
pub open spec fn labelled_line(
    metric: Seq<char>,
    device: Seq<char>,
    label: Seq<char>,
    text: Seq<char>,
    value: Seq<char>,
) -> Seq<char> {
    metric + "{device=\""@ + esc(device) + "\","@ + label + "=\""@ + text + "\"} "@ + value + "\n"@
}

fn labelled_row(metric: &str, device: &str, label: &str, text: &str, value: &str) -> (r: String)
    ensures
        r@ == labelled_line(metric@, device@, label@, text@, value@),
{
    let name = escaped(device);
    metric.to_owned().concat("{device=\"").concat(name.as_str()).concat("\",").concat(label).concat(
        "=\"",
    ).concat(text).concat("\"} ").concat(value).concat("\n")
}

pub open spec fn error_line(device: Seq<char>, count: (Seq<char>, u64)) -> Seq<char> {
    labelled_line(
        "gocoax_scrape_errors_total"@,
        device,
        "reason"@,
        esc(count.0),
        decimal(count.1 as nat),
    )
}

pub open spec fn info_line(device: Seq<char>, host: Seq<char>, s: DeviceStatusView) -> Seq<char> {
    "gocoax_info{device=\""@ + esc(device) + "\",host=\""@ + esc(host) + "\",mac=\""@ + esc(s.mac)
        + "\",ip=\""@ + esc(s.ip.text()) + "\",soc_version=\""@ + esc(s.soc_version)
        + "\",moca_version=\""@ + esc(s.moca_version) + "\"} 1\n"@
}

pub open spec fn rate_line(
    device: Seq<char>,
    link: PhyLink,
    kind: Seq<char>,
    mbps: u32,
) -> Seq<char> {
    "gocoax_phy_rate_mbps{device=\""@ + esc(device) + "\",from_node=\""@ + decimal(
        link.from_node as nat,
    ) + "\",to_node=\""@ + decimal(link.to_node as nat) + "\",type=\""@ + kind + "\"} "@ + decimal(
        mbps as nat,
    ) + "\n"@
}

/// The two rates of a link.
pub open spec fn link_lines(device: Seq<char>, link: PhyLink) -> Seq<char> {
    rate_line(device, link, "nper"@, link.nper_mbps) + rate_line(
        device,
        link,
        "vlper"@,
        link.vlper_mbps,
    )
}

pub open spec fn gcd_line(device: Seq<char>, gcd: (u32, u32)) -> Seq<char> {
    labelled_line(
        "gocoax_phy_rate_gcd_mbps"@,
        device,
        "node"@,
        decimal(gcd.0 as nat),
        decimal(gcd.1 as nat),
    )
}

/// The version as a number, its digits one behind the other.
pub open spec fn version_number(raw: u8) -> nat {
    (raw as nat / 16) * 10 + raw as nat % 16
}

pub open spec fn node_version_line(device: Seq<char>, node: (u32, u8)) -> Seq<char> {
    labelled_line(
        "gocoax_node_moca_version"@,
        device,
        "node"@,
        decimal(node.0 as nat),
        decimal(version_number(node.1)),
    )
}

pub open spec fn frame_line(
    metric: Seq<char>,
    device: Seq<char>,
    status: Seq<char>,
    count: u64,
) -> Seq<char> {
    metric + "{device=\""@ + esc(device) + "\",port=\"1\",status=\""@ + status + "\"} "@ + decimal(
        count as nat,
    ) + "\n"@
}

/// The good, bad and dropped frames of one direction.
pub open spec fn frame_lines(
    metric: Seq<char>,
    device: Seq<char>,
    good: u64,
    bad: u64,
    dropped: u64,
) -> Seq<char> {
    frame_line(metric, device, "good"@, good) + frame_line(metric, device, "bad"@, bad)
        + frame_line(metric, device, "dropped"@, dropped)
}

pub open spec fn port_link_line(device: Seq<char>, port: EthPort) -> Seq<char> {
    labelled_line(
        "gocoax_ethernet_link_up"@,
        device,
        "port"@,
        decimal(port.port as nat),
        flag_text(port.link_up),
    )
}

pub open spec fn port_speed_line(device: Seq<char>, port: EthPort) -> Seq<char> {
    labelled_line(
        "gocoax_ethernet_speed_mbps"@,
        device,
        "port"@,
        decimal(port.port as nat),
        decimal(port.speed_mbps as nat),
    )
}

/// The samples that a metric has of what the status of a device says.
pub open spec fn status_rows(metric: Metric, o: OutcomeView, s: DeviceStatusView) -> Seq<char> {
    match metric {
        Metric::Info => info_line(o.name, o.host, s),
        Metric::LinkUp => device_line(metric.spec_name(), o.name, flag_text(s.link_up)),
        Metric::Nodes => device_line(metric.spec_name(), o.name, decimal(s.node_count as nat)),
        Metric::TxFrames => frame_lines(
            metric.spec_name(),
            o.name,
            s.eth.tx_good,
            s.eth.tx_bad,
            s.eth.tx_dropped,
        ),
        Metric::RxFrames => frame_lines(
            metric.spec_name(),
            o.name,
            s.eth.rx_good,
            s.eth.rx_bad,
            s.eth.rx_dropped,
        ),
        Metric::EthernetLinkUp => cat(s.eth_ports, |p: EthPort| port_link_line(o.name, p)),
        Metric::EthernetSpeed => cat(s.eth_ports, |p: EthPort| port_speed_line(o.name, p)),
        _ => Seq::empty(),
    }
}

/// The samples that a metric has of the rates of a device.
pub open spec fn phy_rows(metric: Metric, o: OutcomeView, p: PhyRatesView) -> Seq<char> {
    match metric {
        Metric::PhyRate => cat(p.links, |link: PhyLink| link_lines(o.name, link)),
        Metric::PhyRateGcd => cat(p.gcd_mbps, |gcd: (u32, u32)| gcd_line(o.name, gcd)),
        Metric::NodeVersion => cat(
            p.node_versions,
            |node: (u32, u8)| node_version_line(o.name, node),
        ),
        _ => Seq::empty(),
    }
}

/// The samples that a metric has of the scrape of a device.
pub open spec fn health_rows(metric: Metric, o: OutcomeView) -> Seq<char> {
    match metric {
        Metric::Up => device_line(metric.spec_name(), o.name, flag_text(o.up)),
        Metric::ScrapeErrors => cat(
            o.error_counts,
            |count: (Seq<char>, u64)| error_line(o.name, count),
        ),
        Metric::ScrapeDuration => device_line(metric.spec_name(), o.name, o.duration_secs),
        Metric::LastSuccess => match o.last_success_ts {
            Some(ts) => device_line(metric.spec_name(), o.name, ts),
            None => Seq::empty(),
        },
        _ => Seq::empty(),
    }
}

/// The samples that a metric has of a device. A device without a status has
/// samples of its health only.
pub open spec fn rows(metric: Metric, o: OutcomeView) -> Seq<char> {
    if metric.is_health() {
        health_rows(metric, o)
    } else {
        match o.status {
            Some(s) => if metric.is_phy() {
                match o.phy {
                    Some(p) => phy_rows(metric, o, p),
                    None => Seq::empty(),
                }
            } else {
                status_rows(metric, o, s)
            },
            None => Seq::empty(),
        }
    }
}

/// The samples that a metric has of all devices.
pub open spec fn samples(metric: Metric, outcomes: Seq<OutcomeView>) -> Seq<char> {
    cat(outcomes, |o: OutcomeView| rows(metric, o))
}

/// A metric as it is shown.
pub open spec fn metric_text(metric: Metric, outcomes: Seq<OutcomeView>) -> Seq<char> {
    let head = header(metric.spec_name(), metric.spec_kind(), metric.spec_help());
    if metric.always_shown() {
        head + samples(metric, outcomes)
    } else {
        block(head, samples(metric, outcomes))
    }
}

/// All metrics as they are shown.
pub open spec fn rendered(outcomes: Seq<OutcomeView>) -> Seq<char> {
    cat(catalog(), |metric: Metric| metric_text(metric, outcomes))
}

fn error_row(device: &str, count: (&str, u64)) -> (r: String)
    ensures
        r@ == error_line(device@, (count.0@, count.1)),
{
    let reason = escaped(count.0);
    let n = decimal_text(count.1);
    labelled_row("gocoax_scrape_errors_total", device, "reason", reason.as_str(), n.as_str())
}

fn error_rows(device: &str, items: &[(&str, u64)]) -> (r: String)
    ensures
        r@ == cat(
            count_views(items@),
            |count: (Seq<char>, u64)| error_line(device@, count),
        ),
{
    let ghost all = count_views(items@);
    let ghost f = |count: (Seq<char>, u64)| error_line(device@, count);
    let mut r: String = String::new();
    let mut i: usize = 0;
    assert(all.take(0) =~= Seq::<(Seq<char>, u64)>::empty());
    while i < items.len()
        invariant
            i <= items.len(),
            all == count_views(items@),
            f == (|count: (Seq<char>, u64)| error_line(device@, count)),
            r@ == cat(all.take(i as int), f),
        decreases items.len() - i,
    {
        proof {
            lemma_cat_step(all, i as int, f);
        }
        let line = error_row(device, items[i]);
        r.append(line.as_str());
        i = i + 1;
    }
    assert(all.take(all.len() as int) =~= all);
    r
}

fn info_row(device: &str, host: &str, s: &DeviceStatus) -> (r: String)
    ensures
        r@ == info_line(device@, host@, s@),
{
    let name = escaped(device);
    let host = escaped(host);
    let mac = escaped(s.mac.as_str());
    let ip = s.ip.to_string();
    let ip = escaped(ip.as_str());
    let soc = escaped(s.soc_version.as_str());
    let moca = escaped(s.moca_version.as_str());
    "gocoax_info{device=\"".to_owned().concat(name.as_str()).concat("\",host=\"").concat(
        host.as_str(),
    ).concat("\",mac=\"").concat(mac.as_str()).concat("\",ip=\"").concat(ip.as_str()).concat(
        "\",soc_version=\"",
    ).concat(soc.as_str()).concat("\",moca_version=\"").concat(moca.as_str()).concat("\"} 1\n")
}

fn rate_row(device: &str, link: &PhyLink, kind: &str, mbps: u32) -> (r: String)
    ensures
        r@ == rate_line(device@, *link, kind@, mbps),
{
    let name = escaped(device);
    let from = decimal_text(link.from_node as u64);
    let to = decimal_text(link.to_node as u64);
    let value = decimal_text(mbps as u64);
    "gocoax_phy_rate_mbps{device=\"".to_owned().concat(name.as_str()).concat(
        "\",from_node=\"",
    ).concat(from.as_str()).concat("\",to_node=\"").concat(to.as_str()).concat("\",type=\"").concat(
        kind,
    ).concat("\"} ").concat(value.as_str()).concat("\n")
}

fn link_row(device: &str, link: &PhyLink) -> (r: String)
    ensures
        r@ == link_lines(device@, *link),
{
    let vlper = rate_row(device, link, "vlper", link.vlper_mbps);
    rate_row(device, link, "nper", link.nper_mbps).concat(vlper.as_str())
}

fn link_rows(device: &str, items: &[PhyLink]) -> (r: String)
    ensures
        r@ == cat(items@, |link: PhyLink| link_lines(device@, link)),
{
    let ghost f = |link: PhyLink| link_lines(device@, link);
    let mut r: String = String::new();
    let mut i: usize = 0;
    assert(items@.take(0) =~= Seq::<PhyLink>::empty());
    while i < items.len()
        invariant
            i <= items.len(),
            f == (|link: PhyLink| link_lines(device@, link)),
            r@ == cat(items@.take(i as int), f),
        decreases items.len() - i,
    {
        proof {
            lemma_cat_step(items@, i as int, f);
        }
        let line = link_row(device, &items[i]);
        r.append(line.as_str());
        i = i + 1;
    }
    assert(items@.take(items@.len() as int) =~= items@);
    r
}

fn gcd_row(device: &str, gcd: (u32, u32)) -> (r: String)
    ensures
        r@ == gcd_line(device@, gcd),
{
    let node = decimal_text(gcd.0 as u64);
    let value = decimal_text(gcd.1 as u64);
    labelled_row("gocoax_phy_rate_gcd_mbps", device, "node", node.as_str(), value.as_str())
}

fn gcd_rows(device: &str, items: &[(u32, u32)]) -> (r: String)
    ensures
        r@ == cat(items@, |gcd: (u32, u32)| gcd_line(device@, gcd)),
{
    let ghost f = |gcd: (u32, u32)| gcd_line(device@, gcd);
    let mut r: String = String::new();
    let mut i: usize = 0;
    assert(items@.take(0) =~= Seq::<(u32, u32)>::empty());
    while i < items.len()
        invariant
            i <= items.len(),
            f == (|gcd: (u32, u32)| gcd_line(device@, gcd)),
            r@ == cat(items@.take(i as int), f),
        decreases items.len() - i,
    {
        proof {
            lemma_cat_step(items@, i as int, f);
        }
        let line = gcd_row(device, items[i]);
        r.append(line.as_str());
        i = i + 1;
    }
    assert(items@.take(items@.len() as int) =~= items@);
    r
}

fn node_version_row(device: &str, node: (u32, u8)) -> (r: String)
    ensures
        r@ == node_version_line(device@, node),
{
    let raw: u8 = node.1;
    let id = decimal_text(node.0 as u64);
    let version: u64 = (raw / 16) as u64 * 10 + (raw % 16) as u64;
    let value = decimal_text(version);
    labelled_row("gocoax_node_moca_version", device, "node", id.as_str(), value.as_str())
}

fn node_version_rows(device: &str, items: &[(u32, u8)]) -> (r: String)
    ensures
        r@ == cat(items@, |node: (u32, u8)| node_version_line(device@, node)),
{
    let ghost f = |node: (u32, u8)| node_version_line(device@, node);
    let mut r: String = String::new();
    let mut i: usize = 0;
    assert(items@.take(0) =~= Seq::<(u32, u8)>::empty());
    while i < items.len()
        invariant
            i <= items.len(),
            f == (|node: (u32, u8)| node_version_line(device@, node)),
            r@ == cat(items@.take(i as int), f),
        decreases items.len() - i,
    {
        proof {
            lemma_cat_step(items@, i as int, f);
        }
        let line = node_version_row(device, items[i]);
        r.append(line.as_str());
        i = i + 1;
    }
    assert(items@.take(items@.len() as int) =~= items@);
    r
}

fn frame_row(metric: &str, device: &str, status: &str, count: u64) -> (r: String)
    ensures
        r@ == frame_line(metric@, device@, status@, count),
{
    let name = escaped(device);
    let value = decimal_text(count);
    metric.to_owned().concat("{device=\"").concat(name.as_str()).concat(
        "\",port=\"1\",status=\"",
    ).concat(status).concat("\"} ").concat(value.as_str()).concat("\n")
}

fn frame_rows(metric: &str, device: &str, good: u64, bad: u64, dropped: u64) -> (r: String)
    ensures
        r@ == frame_lines(metric@, device@, good, bad, dropped),
{
    let second = frame_row(metric, device, "bad", bad);
    let third = frame_row(metric, device, "dropped", dropped);
    frame_row(metric, device, "good", good).concat(second.as_str()).concat(third.as_str())
}

fn port_link_row(device: &str, port: &EthPort) -> (r: String)
    ensures
        r@ == port_link_line(device@, *port),
{
    let id = decimal_text(port.port as u64);
    labelled_row("gocoax_ethernet_link_up", device, "port", id.as_str(), flag(port.link_up))
}

fn port_link_rows(device: &str, items: &[EthPort]) -> (r: String)
    ensures
        r@ == cat(items@, |p: EthPort| port_link_line(device@, p)),
{
    let ghost f = |p: EthPort| port_link_line(device@, p);
    let mut r: String = String::new();
    let mut i: usize = 0;
    assert(items@.take(0) =~= Seq::<EthPort>::empty());
    while i < items.len()
        invariant
            i <= items.len(),
            f == (|p: EthPort| port_link_line(device@, p)),
            r@ == cat(items@.take(i as int), f),
        decreases items.len() - i,
    {
        proof {
            lemma_cat_step(items@, i as int, f);
        }
        let line = port_link_row(device, &items[i]);
        r.append(line.as_str());
        i = i + 1;
    }
    assert(items@.take(items@.len() as int) =~= items@);
    r
}

fn port_speed_row(device: &str, port: &EthPort) -> (r: String)
    ensures
        r@ == port_speed_line(device@, *port),
{
    let id = decimal_text(port.port as u64);
    let value = decimal_text(port.speed_mbps as u64);
    labelled_row("gocoax_ethernet_speed_mbps", device, "port", id.as_str(), value.as_str())
}

fn port_speed_rows(device: &str, items: &[EthPort]) -> (r: String)
    ensures
        r@ == cat(items@, |p: EthPort| port_speed_line(device@, p)),
{
    let ghost f = |p: EthPort| port_speed_line(device@, p);
    let mut r: String = String::new();
    let mut i: usize = 0;
    assert(items@.take(0) =~= Seq::<EthPort>::empty());
    while i < items.len()
        invariant
            i <= items.len(),
            f == (|p: EthPort| port_speed_line(device@, p)),
            r@ == cat(items@.take(i as int), f),
        decreases items.len() - i,
    {
        proof {
            lemma_cat_step(items@, i as int, f);
        }
        let line = port_speed_row(device, &items[i]);
        r.append(line.as_str());
        i = i + 1;
    }
    assert(items@.take(items@.len() as int) =~= items@);
    r
}

fn health_text(metric: Metric, o: &DeviceOutcome<'_>) -> (r: String)
    ensures
        r@ == health_rows(metric, o@),
{
    match metric {
        Metric::Up => device_row(metric.name(), o.name, flag(o.up)),
        Metric::ScrapeErrors => error_rows(o.name, o.error_counts),
        Metric::ScrapeDuration => device_row(metric.name(), o.name, o.duration_secs),
        Metric::LastSuccess => match o.last_success_ts {
            Some(ts) => device_row(metric.name(), o.name, ts),
            None => String::new(),
        },
        _ => String::new(),
    }
}

fn status_text(metric: Metric, o: &DeviceOutcome<'_>, s: &DeviceStatus) -> (r: String)
    ensures
        r@ == status_rows(metric, o@, s@),
{
    match metric {
        Metric::Info => info_row(o.name, o.host, s),
        Metric::LinkUp => device_row(metric.name(), o.name, flag(s.link_up)),
        Metric::Nodes => {
            let n = decimal_text(s.node_count as u64);
            device_row(metric.name(), o.name, n.as_str())
        },
        Metric::TxFrames => frame_rows(
            metric.name(),
            o.name,
            s.eth.tx_good,
            s.eth.tx_bad,
            s.eth.tx_dropped,
        ),
        Metric::RxFrames => frame_rows(
            metric.name(),
            o.name,
            s.eth.rx_good,
            s.eth.rx_bad,
            s.eth.rx_dropped,
        ),
        Metric::EthernetLinkUp => port_link_rows(o.name, s.eth_ports.as_slice()),
        Metric::EthernetSpeed => port_speed_rows(o.name, s.eth_ports.as_slice()),
        _ => String::new(),
    }
}

fn phy_text(metric: Metric, o: &DeviceOutcome<'_>, p: &PhyRates) -> (r: String)
    ensures
        r@ == phy_rows(metric, o@, p@),
{
    match metric {
        Metric::PhyRate => link_rows(o.name, p.links.as_slice()),
        Metric::PhyRateGcd => gcd_rows(o.name, p.gcd_mbps.as_slice()),
        Metric::NodeVersion => node_version_rows(o.name, p.node_versions.as_slice()),
        _ => String::new(),
    }
}

fn row_text(metric: Metric, o: &DeviceOutcome<'_>) -> (r: String)
    ensures
        r@ == rows(metric, o@),
{
    match metric {
        Metric::Up | Metric::ScrapeErrors | Metric::ScrapeDuration | Metric::LastSuccess => {
            health_text(metric, o)
        },
        Metric::PhyRate | Metric::PhyRateGcd | Metric::NodeVersion => match (o.status, o.phy) {
            (Some(_), Some(p)) => phy_text(metric, o, p),
            _ => String::new(),
        },
        _ => match o.status {
            Some(s) => status_text(metric, o, s),
            None => String::new(),
        },
    }
}

fn sample_text(metric: Metric, items: &[DeviceOutcome<'_>]) -> (r: String)
    ensures
        r@ == samples(metric, outcome_views(items@)),
{
    let ghost all = outcome_views(items@);
    let ghost f = |o: OutcomeView| rows(metric, o);
    let mut r: String = String::new();
    let mut i: usize = 0;
    assert(all.take(0) =~= Seq::<OutcomeView>::empty());
    while i < items.len()
        invariant
            i <= items.len(),
            all == outcome_views(items@),
            f == (|o: OutcomeView| rows(metric, o)),
            r@ == cat(all.take(i as int), f),
        decreases items.len() - i,
    {
        proof {
            lemma_cat_step(all, i as int, f);
        }
        let line = row_text(metric, &items[i]);
        r.append(line.as_str());
        i = i + 1;
    }
    assert(all.take(all.len() as int) =~= all);
    r
}

fn push_metric(out: &mut String, metric: Metric, outcomes: &[DeviceOutcome<'_>])
    ensures
        final(out)@ == old(out)@ + metric_text(metric, outcome_views(outcomes@)),
{
    let text = sample_text(metric, outcomes);
    match metric {
        Metric::Up | Metric::ScrapeDuration => {
            push_header(out, metric.name(), metric.kind(), metric.help());
            out.append(text.as_str());
            assert(out@ =~= old(out)@ + metric_text(metric, outcome_views(outcomes@)));
        },
        _ => {
            push_block(out, metric.name(), metric.kind(), metric.help(), text.as_str());
        },
    }
}

fn metrics_in_order() -> (r: Vec<Metric>)
    ensures
        r@ == catalog(),
{
    vec![
        Metric::Up,
        Metric::ScrapeErrors,
        Metric::ScrapeDuration,
        Metric::LastSuccess,
        Metric::Info,
        Metric::LinkUp,
        Metric::Nodes,
        Metric::PhyRate,
        Metric::PhyRateGcd,
        Metric::TxFrames,
        Metric::RxFrames,
        Metric::EthernetLinkUp,
        Metric::EthernetSpeed,
        Metric::NodeVersion,
    ]
}

/// The metrics of a scrape as Prometheus text.
pub fn render(outcomes: &[DeviceOutcome<'_>]) -> (r: String)
    ensures
        r@ == rendered(outcome_views(outcomes@)),
{
    let list = metrics_in_order();
    let ghost f = |metric: Metric| metric_text(metric, outcome_views(outcomes@));
    let mut out: String = String::new();
    let mut i: usize = 0;
    assert(list@.take(0) =~= Seq::<Metric>::empty());
    while i < list.len()
        invariant
            i <= list.len(),
            f == (|metric: Metric| metric_text(metric, outcome_views(outcomes@))),
            out@ == cat(list@.take(i as int), f),
        decreases list.len() - i,
    {
        proof {
            lemma_cat_step(list@, i as int, f);
        }
        push_metric(&mut out, list[i], outcomes);
        i = i + 1;
    }
    assert(list@.take(list@.len() as int) =~= list@);
    out
}

/// A device that was not read has samples of its health only, whatever rates it
/// may come with.
pub proof fn law_down_device_health_only(metric: Metric, o: OutcomeView)
    requires
        o.status is None,
        !metric.is_health(),
    ensures
        rows(metric, o).len() == 0,
{
}

/// Where no device was read, the metrics of what devices say are not even
/// announced.
pub proof fn law_nothing_read_nothing_announced(
    metric: Metric,
    outcomes: Seq<OutcomeView>,
)
    requires
        !metric.is_health(),
        forall|i: int| 0 <= i < outcomes.len() ==> (#[trigger] outcomes[i]).status is None,
    ensures
        metric_text(metric, outcomes).len() == 0,
{
    let f = |o: OutcomeView| rows(metric, o);
    assert forall|i: int| 0 <= i < outcomes.len() implies f(#[trigger] outcomes[i]).len() == 0 by {}
    lemma_cat_empty(outcomes, f);
}

/// Every device has its health and the duration of its scrape shown, up or
/// down.
pub proof fn law_every_device_shown(o: OutcomeView)
    ensures
        rows(Metric::Up, o) == device_line("gocoax_up"@, o.name, flag_text(o.up)),
        rows(Metric::ScrapeDuration, o) == device_line(
            "gocoax_scrape_duration_seconds"@,
            o.name,
            o.duration_secs,
        ),
{
}

/// Devices are shown one behind the other, and none changes what is shown of
/// another.
pub proof fn law_devices_are_independent(
    metric: Metric,
    a: Seq<OutcomeView>,
    b: Seq<OutcomeView>,
)
    ensures
        samples(metric, a + b) == samples(metric, a) + samples(metric, b),
{
    lemma_cat_append(a, b, |o: OutcomeView| rows(metric, o));
}

/// A metric that is not always shown is left out exactly where no device has a
/// sample of it.
pub proof fn law_metric_left_out(metric: Metric, outcomes: Seq<OutcomeView>)
    requires
        !metric.always_shown(),
    ensures
        metric_text(metric, outcomes).len() == 0 <==> forall|i: int|
            0 <= i < outcomes.len() ==> rows(metric, #[trigger] outcomes[i]).len() == 0,
{
    let f = |o: OutcomeView| rows(metric, o);
    lemma_cat_empty(outcomes, f);
    if forall|i: int| 0 <= i < outcomes.len() ==> rows(metric, #[trigger] outcomes[i]).len() == 0 {
        assert forall|i: int| 0 <= i < outcomes.len() implies f(
            #[trigger] outcomes[i],
        ).len() == 0 by {}
    } else {
        let i = choose|i: int|
            0 <= i < outcomes.len() && rows(metric, #[trigger] outcomes[i]).len() != 0;
        assert(f(outcomes[i]).len() != 0);
    }
}

} // verus!
