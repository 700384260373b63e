//! What a reader finds on the exporter's page.

use crate::decode::{DeviceStatusView, EthPort};
use crate::exporter::metrics::{
    catalog, error_line, frame_line, frame_lines, gcd_line, health_rows, info_line, labelled_line,
    link_lines, metric_text, node_version_line, phy_rows, port_link_line, port_speed_line,
    rate_line, rendered, rows, samples, status_rows, Metric, OutcomeView,
};
use crate::exposition::{block, device_line, esc, esc_char, flag_text, header};
use crate::laws::bits::law_decimal_tells_apart;
use crate::laws::page::{
    entry_text, fit, is_name, label_text, labels_text, law_page_reads_back, one_line, page_text,
    read_page, Entry,
};
use crate::phy::{PhyLink, PhyRatesView};
use crate::text::{cat, decimal, lemma_cat_append, lemma_cat_step};
use vstd::prelude::*;

verus! {

/// The entries of each item, one behind the other.
pub open spec fn each<T>(items: Seq<T>, f: spec_fn(T) -> Seq<Entry>) -> Seq<Entry>
    decreases items.len(),
{
    if items.len() == 0 {
        Seq::empty()
    } else {
        each(items.drop_last(), f) + f(items.last())
    }
}

/// A metric with its help, its kind and its samples.
pub open spec fn announced(
    metric: Seq<char>,
    kind: Seq<char>,
    help: Seq<char>,
    samples: Seq<Entry>,
) -> Seq<Entry> {
    seq![Entry::Help { metric, text: help }, Entry::Kind { metric, kind }] + samples
}

/// A metric that is left out where it has no samples.
pub open spec fn section(
    metric: Seq<char>,
    kind: Seq<char>,
    help: Seq<char>,
    samples: Seq<Entry>,
) -> Seq<Entry> {
    if samples.len() == 0 {
        Seq::empty()
    } else {
        announced(metric, kind, help, samples)
    }
}

/// A sample of a device.
pub open spec fn of_device(metric: Seq<char>, device: Seq<char>, value: Seq<char>) -> Entry {
    Entry::Sample { metric, labels: seq![("device"@, device)], value }
}

/// A sample of a device with one more label.
pub open spec fn of_two(
    metric: Seq<char>,
    device: Seq<char>,
    label: (Seq<char>, Seq<char>),
    value: Seq<char>,
) -> Entry {
    Entry::Sample { metric, labels: seq![("device"@, device), label], value }
}

/// `1` for what holds, `0` for what does not.
pub open spec fn one_or_zero(b: bool) -> Seq<char> {
    if b {
        seq!['1']
    } else {
        seq!['0']
    }
}

/// The rate of a link: from which node to which, of which kind.
pub open spec fn of_link(device: Seq<char>, link: PhyLink, kind: Seq<char>, mbps: u32) -> Entry {
    Entry::Sample {
        metric: "gocoax_phy_rate_mbps"@,
        labels: seq![
            ("device"@, device),
            ("from_node"@, decimal(link.from_node as nat)),
            ("to_node"@, decimal(link.to_node as nat)),
            ("type"@, kind),
        ],
        value: decimal(mbps as nat),
    }
}

/// Frames of one direction at the first port.
pub open spec fn of_frames(
    metric: Seq<char>,
    device: Seq<char>,
    status: Seq<char>,
    count: u64,
) -> Entry {
    Entry::Sample {
        metric,
        labels: seq![("device"@, device), ("port"@, seq!['1']), ("status"@, status)],
        value: decimal(count as nat),
    }
}

/// What is known of a device, as labels.
pub open spec fn of_info(device: Seq<char>, host: Seq<char>, s: DeviceStatusView) -> Entry {
    Entry::Sample {
        metric: "gocoax_info"@,
        labels: seq![
            ("device"@, device),
            ("host"@, host),
            ("mac"@, s.mac),
            ("ip"@, s.ip.text()),
            ("soc_version"@, s.soc_version),
            ("moca_version"@, s.moca_version),
        ],
        value: seq!['1'],
    }
}

/// The samples of a device under a metric of its status.
pub open spec fn status_samples(metric: Metric, o: OutcomeView, s: DeviceStatusView) -> Seq<Entry> {
    match metric {
        Metric::Info => seq![of_info(o.name, o.host, s)],
        Metric::LinkUp => seq![of_device("gocoax_moca_link_up"@, o.name, one_or_zero(s.link_up))],
        Metric::Nodes => seq![
            of_device("gocoax_moca_nodes"@, o.name, decimal(s.node_count as nat)),
        ],
        Metric::TxFrames => seq![
            of_frames("gocoax_ethernet_tx_frames_total"@, o.name, "good"@, s.eth.tx_good),
            of_frames("gocoax_ethernet_tx_frames_total"@, o.name, "bad"@, s.eth.tx_bad),
            of_frames("gocoax_ethernet_tx_frames_total"@, o.name, "dropped"@, s.eth.tx_dropped),
        ],
        Metric::RxFrames => seq![
            of_frames("gocoax_ethernet_rx_frames_total"@, o.name, "good"@, s.eth.rx_good),
            of_frames("gocoax_ethernet_rx_frames_total"@, o.name, "bad"@, s.eth.rx_bad),
            of_frames("gocoax_ethernet_rx_frames_total"@, o.name, "dropped"@, s.eth.rx_dropped),
        ],
        Metric::EthernetLinkUp => each(
            s.eth_ports,
            |p: EthPort|
                seq![
                    of_two(
                        "gocoax_ethernet_link_up"@,
                        o.name,
                        ("port"@, decimal(p.port as nat)),
                        one_or_zero(p.link_up),
                    ),
                ],
        ),
        Metric::EthernetSpeed => each(
            s.eth_ports,
            |p: EthPort|
                seq![
                    of_two(
                        "gocoax_ethernet_speed_mbps"@,
                        o.name,
                        ("port"@, decimal(p.port as nat)),
                        decimal(p.speed_mbps as nat),
                    ),
                ],
        ),
        _ => Seq::empty(),
    }
}

/// The samples of a device under a metric of its rates.
pub open spec fn phy_samples(metric: Metric, o: OutcomeView, p: PhyRatesView) -> Seq<Entry> {
    match metric {
        Metric::PhyRate => each(
            p.links,
            |link: PhyLink|
                seq![
                    of_link(o.name, link, "nper"@, link.nper_mbps),
                    of_link(o.name, link, "vlper"@, link.vlper_mbps),
                ],
        ),
        Metric::PhyRateGcd => each(
            p.gcd_mbps,
            |gcd: (u32, u32)|
                seq![
                    of_two(
                        "gocoax_phy_rate_gcd_mbps"@,
                        o.name,
                        ("node"@, decimal(gcd.0 as nat)),
                        decimal(gcd.1 as nat),
                    ),
                ],
        ),
        Metric::NodeVersion => each(
            p.node_versions,
            |node: (u32, u8)|
                seq![
                    of_two(
                        "gocoax_node_moca_version"@,
                        o.name,
                        ("node"@, decimal(node.0 as nat)),
                        decimal((node.1 as nat / 16) * 10 + node.1 as nat % 16),
                    ),
                ],
        ),
        _ => Seq::empty(),
    }
}

/// The samples of a device under a metric of its health.
pub open spec fn health_samples(metric: Metric, o: OutcomeView) -> Seq<Entry> {
    match metric {
        Metric::Up => seq![of_device("gocoax_up"@, o.name, one_or_zero(o.up))],
        Metric::ScrapeErrors => each(
            o.error_counts,
            |count: (Seq<char>, u64)|
                seq![
                    of_two(
                        "gocoax_scrape_errors_total"@,
                        o.name,
                        ("reason"@, count.0),
                        decimal(count.1 as nat),
                    ),
                ],
        ),
        Metric::ScrapeDuration => seq![
            of_device("gocoax_scrape_duration_seconds"@, o.name, o.duration_secs),
        ],
        Metric::LastSuccess => match o.last_success_ts {
            Some(ts) => seq![of_device("gocoax_last_success_timestamp_seconds"@, o.name, ts)],
            None => Seq::empty(),
        },
        _ => Seq::empty(),
    }
}

/// The samples of a device under a metric: its health always, its status where that
/// was read, and its rates where both were.
pub open spec fn device_samples(metric: Metric, o: OutcomeView) -> Seq<Entry> {
    health_samples(metric, o) + match (o.status, o.phy) {
        (Some(s), Some(p)) => status_samples(metric, o, s) + phy_samples(metric, o, p),
        (Some(s), None) => status_samples(metric, o, s),
        _ => Seq::empty(),
    }
}

/// The samples of all devices under a metric.
pub open spec fn all_samples(metric: Metric, os: Seq<OutcomeView>) -> Seq<Entry> {
    each(os, |o: OutcomeView| device_samples(metric, o))
}

/// What the page says, metric by metric.
pub open spec fn listing(os: Seq<OutcomeView>) -> Seq<Entry> {
    announced(
        "gocoax_up"@,
        "gauge"@,
        "Current device read health (1=up, 0=down)."@,
        all_samples(Metric::Up, os),
    ) + section(
        "gocoax_scrape_errors_total"@,
        "counter"@,
        "Count of scrape errors by classified reason."@,
        all_samples(Metric::ScrapeErrors, os),
    ) + announced(
        "gocoax_scrape_duration_seconds"@,
        "gauge"@,
        "Per-device scrape duration in seconds."@,
        all_samples(Metric::ScrapeDuration, os),
    ) + section(
        "gocoax_last_success_timestamp_seconds"@,
        "gauge"@,
        "Unix timestamp of the device's last fully successful scrape."@,
        all_samples(Metric::LastSuccess, os),
    ) + section(
        "gocoax_info"@,
        "gauge"@,
        "Device identity/firmware info (label carrier, always 1)."@,
        all_samples(Metric::Info, os),
    ) + section(
        "gocoax_moca_link_up"@,
        "gauge"@,
        "Whether the device's MoCA link is up."@,
        all_samples(Metric::LinkUp, os),
    ) + section(
        "gocoax_moca_nodes"@,
        "gauge"@,
        "Number of nodes on the MoCA network."@,
        all_samples(Metric::Nodes, os),
    ) + section(
        "gocoax_phy_rate_mbps"@,
        "gauge"@,
        "PHY rate between a node pair (self pair = per-node rate)."@,
        all_samples(Metric::PhyRate, os),
    ) + section(
        "gocoax_phy_rate_gcd_mbps"@,
        "gauge"@,
        "Per-node GCD PHY rate."@,
        all_samples(Metric::PhyRateGcd, os),
    ) + section(
        "gocoax_ethernet_tx_frames_total"@,
        "counter"@,
        "Ethernet tx frame counters by status."@,
        all_samples(Metric::TxFrames, os),
    ) + section(
        "gocoax_ethernet_rx_frames_total"@,
        "counter"@,
        "Ethernet rx frame counters by status."@,
        all_samples(Metric::RxFrames, os),
    ) + section(
        "gocoax_ethernet_link_up"@,
        "gauge"@,
        "Whether an ethernet port's link is up."@,
        all_samples(Metric::EthernetLinkUp, os),
    ) + section(
        "gocoax_ethernet_speed_mbps"@,
        "gauge"@,
        "Negotiated ethernet port speed in Mbps."@,
        all_samples(Metric::EthernetSpeed, os),
    ) + section(
        "gocoax_node_moca_version"@,
        "gauge"@,
        "Per-node MoCA protocol version (e.g. 25 = 2.5)."@,
        all_samples(Metric::NodeVersion, os),
    )
}

/// Whether all entries can be shown.
pub open spec fn all_fit(entries: Seq<Entry>) -> bool {
    forall|i: int| 0 <= i < entries.len() ==> fit(#[trigger] entries[i])
}

proof fn lemma_fit_append(a: Seq<Entry>, b: Seq<Entry>)
    requires
        all_fit(a),
        all_fit(b),
    ensures
        all_fit(a + b),
{
}

/// The text of two lists of entries, one behind the other.
pub proof fn lemma_page_append(a: Seq<Entry>, b: Seq<Entry>)
    ensures
        page_text(a + b) == page_text(a) + page_text(b),
        all_fit(a) && all_fit(b) ==> all_fit(a + b),
{
    lemma_cat_append(a, b, |entry: Entry| entry_text(entry));
}

/// The text of one entry.
pub proof fn lemma_page_one(entry: Entry)
    ensures
        page_text(seq![entry]) == entry_text(entry),
        fit(entry) ==> all_fit(seq![entry]),
{
    let f = |entry: Entry| entry_text(entry);
    assert(seq![entry].drop_last() =~= Seq::empty());
    assert(cat(seq![entry].drop_last(), f) =~= Seq::empty());
    assert(cat(seq![entry], f) =~= entry_text(entry));
}

/// The text of items is the page of their entries.
pub proof fn lemma_each<T>(
    items: Seq<T>,
    f: spec_fn(T) -> Seq<Entry>,
    g: spec_fn(T) -> Seq<char>,
)
    requires
        forall|i: int|
            0 <= i < items.len() ==> {
                &&& g(#[trigger] items[i]) == page_text(f(items[i]))
                &&& all_fit(f(items[i]))
            },
    ensures
        cat(items, g) == page_text(each(items, f)),
        all_fit(each(items, f)),
    decreases items.len(),
{
    if items.len() == 0 {
        assert(page_text(each(items, f)) =~= Seq::empty());
    } else {
        let rest = items.drop_last();
        assert forall|i: int| 0 <= i < rest.len() implies {
            &&& g(#[trigger] rest[i]) == page_text(f(rest[i]))
            &&& all_fit(f(rest[i]))
        } by {
            assert(rest[i] == items[i]);
        }
        lemma_each(rest, f, g);
        assert(items.last() == items[items.len() - 1]);
        lemma_page_append(each(rest, f), f(items.last()));
    }
}

proof fn lemma_page_empty(entries: Seq<Entry>)
    ensures
        page_text(entries).len() == 0 <==> entries.len() == 0,
{
    if entries.len() > 0 {
        let last = entry_text(entries.last());
        assert(last.len() > 0);
        assert(page_text(entries).len() >= last.len());
    }
}

proof fn lemma_header(metric: Seq<char>, kind: Seq<char>, help: Seq<char>)
    ensures
        header(metric, kind, help) == page_text(
            seq![Entry::Help { metric, text: help }, Entry::Kind { metric, kind }],
        ),
{
    let a = Entry::Help { metric, text: help };
    let b = Entry::Kind { metric, kind };
    lemma_page_one(a);
    lemma_page_one(b);
    lemma_page_append(seq![a], seq![b]);
    assert(seq![a] + seq![b] =~= seq![a, b]);
    reveal_strlit("# HELP ");
    reveal_strlit(" ");
    reveal_strlit("\n# TYPE ");
    reveal_strlit("\n");
    let h = seq!['#', ' ', 'H', 'E', 'L', 'P', ' '];
    let t = seq!['#', ' ', 'T', 'Y', 'P', 'E', ' '];
    assert("# HELP "@ =~= h);
    assert(" "@ =~= seq![' ']);
    assert("\n# TYPE "@ =~= seq!['\n'] + t);
    assert("\n"@ =~= seq!['\n']);
    assert(header(metric, kind, help) =~= entry_text(a) + entry_text(b));
}

/// A metric is shown as its entries.
pub proof fn lemma_section(
    metric: Seq<char>,
    kind: Seq<char>,
    help: Seq<char>,
    list: Seq<Entry>,
)
    requires
        is_name(metric),
        one_line(kind),
        one_line(help),
        all_fit(list),
    ensures
        header(metric, kind, help) + page_text(list) == page_text(
            announced(metric, kind, help, list),
        ),
        block(header(metric, kind, help), page_text(list)) == page_text(
            section(metric, kind, help, list),
        ),
        all_fit(announced(metric, kind, help, list)),
        all_fit(section(metric, kind, help, list)),
{
    let head = seq![Entry::Help { metric, text: help }, Entry::Kind { metric, kind }];
    lemma_header(metric, kind, help);
    lemma_page_append(head, list);
    lemma_page_empty(list);
    assert(fit(head[0]) && fit(head[1]));
    if list.len() == 0 {
        assert(page_text(section(metric, kind, help, list)) =~= Seq::empty());
    }
}

/// The names of the labels are names.
pub proof fn lemma_label_names()
    ensures
        is_name("device"@),
        is_name("from_node"@),
        is_name("to_node"@),
        is_name("type"@),
        is_name("port"@),
        is_name("status"@),
        is_name("host"@),
        is_name("mac"@),
        is_name("ip"@),
        is_name("soc_version"@),
        is_name("moca_version"@),
        is_name("node"@),
        is_name("reason"@),
{
    assert(is_name("device"@)) by {
        reveal_strlit("device");
    }
    assert(is_name("from_node"@)) by {
        reveal_strlit("from_node");
    }
    assert(is_name("to_node"@)) by {
        reveal_strlit("to_node");
    }
    assert(is_name("type"@)) by {
        reveal_strlit("type");
    }
    assert(is_name("port"@)) by {
        reveal_strlit("port");
    }
    assert(is_name("status"@)) by {
        reveal_strlit("status");
    }
    assert(is_name("host"@)) by {
        reveal_strlit("host");
    }
    assert(is_name("mac"@)) by {
        reveal_strlit("mac");
    }
    assert(is_name("ip"@)) by {
        reveal_strlit("ip");
    }
    assert(is_name("soc_version"@)) by {
        reveal_strlit("soc_version");
    }
    assert(is_name("moca_version"@)) by {
        reveal_strlit("moca_version");
    }
    assert(is_name("node"@)) by {
        reveal_strlit("node");
    }
    assert(is_name("reason"@)) by {
        reveal_strlit("reason");
    }
}

/// The names of the metrics are names.
proof fn lemma_metric_names()
    ensures
        is_name("gocoax_up"@),
        is_name("gocoax_scrape_errors_total"@),
        is_name("gocoax_scrape_duration_seconds"@),
        is_name("gocoax_last_success_timestamp_seconds"@),
        is_name("gocoax_info"@),
        is_name("gocoax_moca_link_up"@),
        is_name("gocoax_moca_nodes"@),
        is_name("gocoax_phy_rate_mbps"@),
        is_name("gocoax_phy_rate_gcd_mbps"@),
        is_name("gocoax_ethernet_tx_frames_total"@),
        is_name("gocoax_ethernet_rx_frames_total"@),
        is_name("gocoax_ethernet_link_up"@),
        is_name("gocoax_ethernet_speed_mbps"@),
        is_name("gocoax_node_moca_version"@),
{
    assert(is_name("gocoax_up"@)) by {
        reveal_strlit("gocoax_up");
    }
    assert(is_name("gocoax_scrape_errors_total"@)) by {
        reveal_strlit("gocoax_scrape_errors_total");
    }
    assert(is_name("gocoax_scrape_duration_seconds"@)) by {
        reveal_strlit("gocoax_scrape_duration_seconds");
    }
    assert(is_name("gocoax_last_success_timestamp_seconds"@)) by {
        reveal_strlit("gocoax_last_success_timestamp_seconds");
    }
    assert(is_name("gocoax_info"@)) by {
        reveal_strlit("gocoax_info");
    }
    assert(is_name("gocoax_moca_link_up"@)) by {
        reveal_strlit("gocoax_moca_link_up");
    }
    assert(is_name("gocoax_moca_nodes"@)) by {
        reveal_strlit("gocoax_moca_nodes");
    }
    assert(is_name("gocoax_phy_rate_mbps"@)) by {
        reveal_strlit("gocoax_phy_rate_mbps");
    }
    assert(is_name("gocoax_phy_rate_gcd_mbps"@)) by {
        reveal_strlit("gocoax_phy_rate_gcd_mbps");
    }
    assert(is_name("gocoax_ethernet_tx_frames_total"@)) by {
        reveal_strlit("gocoax_ethernet_tx_frames_total");
    }
    assert(is_name("gocoax_ethernet_rx_frames_total"@)) by {
        reveal_strlit("gocoax_ethernet_rx_frames_total");
    }
    assert(is_name("gocoax_ethernet_link_up"@)) by {
        reveal_strlit("gocoax_ethernet_link_up");
    }
    assert(is_name("gocoax_ethernet_speed_mbps"@)) by {
        reveal_strlit("gocoax_ethernet_speed_mbps");
    }
    assert(is_name("gocoax_node_moca_version"@)) by {
        reveal_strlit("gocoax_node_moca_version");
    }
}

/// A text without backslashes, quotes and line ends is escaped as itself.
pub proof fn lemma_esc_plain(s: Seq<char>)
    requires
        forall|i: int|
            0 <= i < s.len() ==> (#[trigger] s[i]) != '\\' && s[i] != '"' && s[i] != '\n',
    ensures
        esc(s) == s,
    decreases s.len(),
{
    if s.len() > 0 {
        lemma_esc_plain(s.drop_last());
        assert(esc(s) == esc(s.drop_last()) + esc_char(s.last()));
        assert(s.last() == s[s.len() - 1]);
        assert(esc(s) =~= s);
    } else {
        assert(esc(s) =~= s);
    }
}

/// A number is escaped as itself, and is one line.
pub proof fn lemma_decimal_plain(n: nat)
    ensures
        forall|i: int| 0 <= i < decimal(n).len() ==> '0' <= #[trigger] decimal(n)[i] <= '9',
        esc(decimal(n)) == decimal(n),
        one_line(decimal(n)),
    decreases n,
{
    if n >= 10 {
        lemma_decimal_plain(n / 10);
    }
    lemma_esc_plain(decimal(n));
}

pub proof fn lemma_two(a: (Seq<char>, Seq<char>), b: (Seq<char>, Seq<char>))
    ensures
        labels_text(seq![a, b]) == label_text(a) + seq![','] + label_text(b),
{
    assert(seq![a, b].skip(1) =~= seq![b]);
    assert(labels_text(seq![b]) == label_text(b));
}

proof fn lemma_three(
    a: (Seq<char>, Seq<char>),
    b: (Seq<char>, Seq<char>),
    c: (Seq<char>, Seq<char>),
)
    ensures
        labels_text(seq![a, b, c]) == label_text(a) + seq![','] + (label_text(b) + seq![',']
            + label_text(c)),
{
    assert(seq![a, b, c].skip(1) =~= seq![b, c]);
    lemma_two(b, c);
}

proof fn lemma_four(
    a: (Seq<char>, Seq<char>),
    b: (Seq<char>, Seq<char>),
    c: (Seq<char>, Seq<char>),
    d: (Seq<char>, Seq<char>),
)
    ensures
        labels_text(seq![a, b, c, d]) == label_text(a) + seq![','] + (label_text(b) + seq![','] + (
        label_text(c) + seq![','] + label_text(d))),
{
    assert(seq![a, b, c, d].skip(1) =~= seq![b, c, d]);
    lemma_three(b, c, d);
}

proof fn lemma_six(
    a: (Seq<char>, Seq<char>),
    b: (Seq<char>, Seq<char>),
    c: (Seq<char>, Seq<char>),
    d: (Seq<char>, Seq<char>),
    e: (Seq<char>, Seq<char>),
    f: (Seq<char>, Seq<char>),
)
    ensures
        labels_text(seq![a, b, c, d, e, f]) == label_text(a) + seq![','] + (label_text(b)
            + seq![','] + (label_text(c) + seq![','] + (label_text(d) + seq![','] + (label_text(e)
            + seq![','] + label_text(f))))),
{
    let more = seq![b, c, d, e, f];
    assert(seq![a, b, c, d, e, f].skip(1) =~= more);
    assert(more.skip(1) =~= seq![c, d, e, f]);
    lemma_four(c, d, e, f);
    assert(labels_text(more) == label_text(b) + seq![','] + labels_text(seq![c, d, e, f]));
}

/// What stands between the parts of a sample.
pub proof fn lemma_marks()
    ensures
        "{device=\""@ == seq!['{'] + "device"@ + seq!['=', '"'],
        "\"} "@ == seq!['"'] + seq!['}'] + seq![' '],
        "\","@ == seq!['"'] + seq![','],
        "=\""@ == seq!['=', '"'],
        "\n"@ == seq!['\n'],
        "1"@ == seq!['1'],
        "0"@ == seq!['0'],
{
    reveal_strlit("{device=\"");
    reveal_strlit("device");
    reveal_strlit("\"} ");
    reveal_strlit("\",");
    reveal_strlit("=\"");
    reveal_strlit("\n");
    reveal_strlit("1");
    reveal_strlit("0");
    assert("{device=\""@ =~= seq!['{'] + "device"@ + seq!['=', '"']);
    assert("\"} "@ =~= seq!['"'] + seq!['}'] + seq![' ']);
    assert("\","@ =~= seq!['"'] + seq![',']);
    assert("=\""@ =~= seq!['=', '"']);
    assert("\n"@ =~= seq!['\n']);
    assert("1"@ =~= seq!['1']);
    assert("0"@ =~= seq!['0']);
}

/// A sample of a device is shown in the line.
pub proof fn lemma_device_line(metric: Seq<char>, device: Seq<char>, value: Seq<char>)
    requires
        is_name(metric),
        one_line(value),
    ensures
        device_line(metric, device, value) == entry_text(of_device(metric, device, value)),
        fit(of_device(metric, device, value)),
{
    lemma_marks();
    lemma_label_names();
    assert(device_line(metric, device, value) =~= entry_text(of_device(metric, device, value)));
}

proof fn lemma_labelled_line(
    metric: Seq<char>,
    device: Seq<char>,
    label: (Seq<char>, Seq<char>),
    value: Seq<char>,
)
    requires
        is_name(metric),
        is_name(label.0),
        one_line(value),
    ensures
        labelled_line(metric, device, label.0, esc(label.1), value) == entry_text(
            of_two(metric, device, label, value),
        ),
        fit(of_two(metric, device, label, value)),
{
    lemma_marks();
    lemma_label_names();
    lemma_two(("device"@, device), label);
    assert(labelled_line(metric, device, label.0, esc(label.1), value) =~= entry_text(
        of_two(metric, device, label, value),
    ));
}

proof fn lemma_rate_marks()
    ensures
        "gocoax_phy_rate_mbps{device=\""@ == "gocoax_phy_rate_mbps"@ + "{device=\""@,
        "\",from_node=\""@ == seq!['"'] + seq![','] + "from_node"@ + seq!['=', '"'],
        "\",to_node=\""@ == seq!['"'] + seq![','] + "to_node"@ + seq!['=', '"'],
        "\",type=\""@ == seq!['"'] + seq![','] + "type"@ + seq!['=', '"'],
{
    assert("gocoax_phy_rate_mbps{device=\""@ == "gocoax_phy_rate_mbps"@ + "{device=\""@) by {
        reveal_strlit("gocoax_phy_rate_mbps{device=\"");
        reveal_strlit("gocoax_phy_rate_mbps");
        reveal_strlit("{device=\"");
    }
    assert("\",from_node=\""@ == seq!['"'] + seq![','] + "from_node"@ + seq!['=', '"']) by {
        reveal_strlit("\",from_node=\"");
        reveal_strlit("from_node");
    }
    assert("\",to_node=\""@ == seq!['"'] + seq![','] + "to_node"@ + seq!['=', '"']) by {
        reveal_strlit("\",to_node=\"");
        reveal_strlit("to_node");
    }
    assert("\",type=\""@ == seq!['"'] + seq![','] + "type"@ + seq!['=', '"']) by {
        reveal_strlit("\",type=\"");
        reveal_strlit("type");
    }
}

/// The line of a rate is the sample of the link.
proof fn lemma_rate_line(device: Seq<char>, link: PhyLink, kind: Seq<char>, mbps: u32)
    requires
        esc(kind) == kind,
    ensures
        rate_line(device, link, kind, mbps) == entry_text(of_link(device, link, kind, mbps)),
        fit(of_link(device, link, kind, mbps)),
{
    lemma_marks();
    lemma_rate_marks();
    lemma_label_names();
    lemma_metric_names();
    lemma_decimal_plain(link.from_node as nat);
    lemma_decimal_plain(link.to_node as nat);
    lemma_decimal_plain(mbps as nat);
    lemma_four(
        ("device"@, device),
        ("from_node"@, decimal(link.from_node as nat)),
        ("to_node"@, decimal(link.to_node as nat)),
        ("type"@, kind),
    );
    assert(rate_line(device, link, kind, mbps) =~= entry_text(of_link(device, link, kind, mbps)));
}

proof fn lemma_frame_marks()
    ensures
        "\",port=\"1\",status=\""@ == seq!['"'] + seq![','] + "port"@ + seq!['=', '"'] + seq!['1']
            + seq!['"'] + seq![','] + "status"@ + seq!['=', '"'],
{
    reveal_strlit("\",port=\"1\",status=\"");
    reveal_strlit("port");
    reveal_strlit("status");
    assert("\",port=\"1\",status=\""@ =~= seq!['"'] + seq![','] + "port"@ + seq!['=', '"']
        + seq!['1'] + seq!['"'] + seq![','] + "status"@ + seq!['=', '"']);
}

/// The line of a frame counter is its sample.
proof fn lemma_frame_line(metric: Seq<char>, device: Seq<char>, status: Seq<char>, count: u64)
    requires
        is_name(metric),
        esc(status) == status,
    ensures
        frame_line(metric, device, status, count) == entry_text(
            of_frames(metric, device, status, count),
        ),
        fit(of_frames(metric, device, status, count)),
{
    lemma_marks();
    lemma_frame_marks();
    lemma_label_names();
    lemma_decimal_plain(count as nat);
    lemma_esc_plain(seq!['1']);
    lemma_three(("device"@, device), ("port"@, seq!['1']), ("status"@, status));
    assert(frame_line(metric, device, status, count) =~= entry_text(
        of_frames(metric, device, status, count),
    ));
}

proof fn lemma_info_marks()
    ensures
        "gocoax_info{device=\""@ == "gocoax_info"@ + "{device=\""@,
        "\",host=\""@ == seq!['"'] + seq![','] + "host"@ + seq!['=', '"'],
        "\",mac=\""@ == seq!['"'] + seq![','] + "mac"@ + seq!['=', '"'],
        "\",ip=\""@ == seq!['"'] + seq![','] + "ip"@ + seq!['=', '"'],
        "\",soc_version=\""@ == seq!['"'] + seq![','] + "soc_version"@ + seq!['=', '"'],
        "\",moca_version=\""@ == seq!['"'] + seq![','] + "moca_version"@ + seq!['=', '"'],
        "\"} 1\n"@ == seq!['"'] + seq!['}'] + seq![' '] + seq!['1'] + seq!['\n'],
{
    assert("gocoax_info{device=\""@ == "gocoax_info"@ + "{device=\""@) by {
        reveal_strlit("gocoax_info{device=\"");
        reveal_strlit("gocoax_info");
        reveal_strlit("{device=\"");
    }
    assert("\",host=\""@ == seq!['"'] + seq![','] + "host"@ + seq!['=', '"']) by {
        reveal_strlit("\",host=\"");
        reveal_strlit("host");
    }
    assert("\",mac=\""@ == seq!['"'] + seq![','] + "mac"@ + seq!['=', '"']) by {
        reveal_strlit("\",mac=\"");
        reveal_strlit("mac");
    }
    assert("\",ip=\""@ == seq!['"'] + seq![','] + "ip"@ + seq!['=', '"']) by {
        reveal_strlit("\",ip=\"");
        reveal_strlit("ip");
    }
    assert("\",soc_version=\""@ == seq!['"'] + seq![','] + "soc_version"@ + seq!['=', '"']) by {
        reveal_strlit("\",soc_version=\"");
        reveal_strlit("soc_version");
    }
    assert("\",moca_version=\""@ == seq!['"'] + seq![','] + "moca_version"@ + seq!['=', '"']) by {
        reveal_strlit("\",moca_version=\"");
        reveal_strlit("moca_version");
    }
    assert("\"} 1\n"@ == seq!['"'] + seq!['}'] + seq![' '] + seq!['1'] + seq!['\n']) by {
        reveal_strlit("\"} 1\n");
    }
}

/// One more label behind a text that ends before the quote of the label before it.
proof fn lemma_next_label(front: Seq<char>, label: (Seq<char>, Seq<char>))
    ensures
        front + (seq!['"'] + seq![','] + label.0 + seq!['=', '"']) + esc(label.1) + seq!['"']
            == front + seq!['"'] + seq![','] + label_text(label),
{
    assert(front + (seq!['"'] + seq![','] + label.0 + seq!['=', '"']) + esc(label.1) + seq!['"']
        =~= front + seq!['"'] + seq![','] + label_text(label));
}

proof fn lemma_regroup(
    m: Seq<char>,
    o: Seq<char>,
    a: Seq<char>,
    b: Seq<char>,
    c: Seq<char>,
    d: Seq<char>,
    e: Seq<char>,
    f: Seq<char>,
    k: Seq<char>,
    z: Seq<char>,
)
    ensures
        m + o + a + k + b + k + c + k + d + k + e + k + f + z == m + (o + (a + k + (b + k + (c + k
            + (d + k + (e + k + f)))) + z)),
{
    assert(m + o + a + k + b + k + c + k + d + k + e + k + f + z =~= m + (o + (a + k + (b + k + (c
        + k + (d + k + (e + k + f)))) + z)));
}

/// The line of a device's identity is its sample.
proof fn lemma_info_line(device: Seq<char>, host: Seq<char>, s: DeviceStatusView)
    ensures
        info_line(device, host, s) == entry_text(of_info(device, host, s)),
        fit(of_info(device, host, s)),
{
    lemma_marks();
    lemma_info_marks();
    lemma_label_names();
    lemma_metric_names();
    let q = seq!['"'];
    let k = seq![','];
    let m = "gocoax_info"@;
    let a = ("device"@, device);
    let b = ("host"@, host);
    let c = ("mac"@, s.mac);
    let d = ("ip"@, s.ip.text());
    let e = ("soc_version"@, s.soc_version);
    let f = ("moca_version"@, s.moca_version);
    let z = seq!['}'] + (seq![' '] + seq!['1']);
    lemma_six(a, b, c, d, e, f);
    let s1 = "gocoax_info{device=\""@ + esc(device);
    assert(s1 + q =~= m + seq!['{'] + label_text(a));
    let s2 = s1 + "\",host=\""@ + esc(host);
    lemma_next_label(s1, b);
    let s3 = s2 + "\",mac=\""@ + esc(s.mac);
    lemma_next_label(s2, c);
    let s4 = s3 + "\",ip=\""@ + esc(s.ip.text());
    lemma_next_label(s3, d);
    let s5 = s4 + "\",soc_version=\""@ + esc(s.soc_version);
    lemma_next_label(s4, e);
    let s6 = s5 + "\",moca_version=\""@ + esc(s.moca_version);
    lemma_next_label(s5, f);
    assert(s6 + "\"} 1\n"@ =~= s6 + q + z + seq!['\n']);
    lemma_regroup(
        m,
        seq!['{'],
        label_text(a),
        label_text(b),
        label_text(c),
        label_text(d),
        label_text(e),
        label_text(f),
        k,
        z,
    );
}

/// The words that stand as label values are escaped as themselves.
proof fn lemma_words()
    ensures
        esc("nper"@) == "nper"@,
        esc("vlper"@) == "vlper"@,
        esc("good"@) == "good"@,
        esc("bad"@) == "bad"@,
        esc("dropped"@) == "dropped"@,
{
    assert(esc("nper"@) == "nper"@) by {
        reveal_strlit("nper");
        lemma_esc_plain("nper"@);
    }
    assert(esc("vlper"@) == "vlper"@) by {
        reveal_strlit("vlper");
        lemma_esc_plain("vlper"@);
    }
    assert(esc("good"@) == "good"@) by {
        reveal_strlit("good");
        lemma_esc_plain("good"@);
    }
    assert(esc("bad"@) == "bad"@) by {
        reveal_strlit("bad");
        lemma_esc_plain("bad"@);
    }
    assert(esc("dropped"@) == "dropped"@) by {
        reveal_strlit("dropped");
        lemma_esc_plain("dropped"@);
    }
}

/// The text of two entries.
proof fn lemma_page_two(a: Entry, b: Entry)
    ensures
        page_text(seq![a, b]) == entry_text(a) + entry_text(b),
        fit(a) && fit(b) ==> all_fit(seq![a, b]),
{
    lemma_page_one(a);
    lemma_page_one(b);
    lemma_page_append(seq![a], seq![b]);
    assert(seq![a] + seq![b] =~= seq![a, b]);
}

proof fn lemma_links(o: OutcomeView, p: PhyRatesView)
    ensures
        phy_rows(Metric::PhyRate, o, p) == page_text(phy_samples(Metric::PhyRate, o, p)),
        all_fit(phy_samples(Metric::PhyRate, o, p)),
{
    let f = |link: PhyLink|
        seq![
            of_link(o.name, link, "nper"@, link.nper_mbps),
            of_link(o.name, link, "vlper"@, link.vlper_mbps),
        ];
    let g = |link: PhyLink| link_lines(o.name, link);
    lemma_words();
    assert forall|i: int| 0 <= i < p.links.len() implies {
        &&& g(#[trigger] p.links[i]) == page_text(f(p.links[i]))
        &&& all_fit(f(p.links[i]))
    } by {
        let link = p.links[i];
        lemma_rate_line(o.name, link, "nper"@, link.nper_mbps);
        lemma_rate_line(o.name, link, "vlper"@, link.vlper_mbps);
        lemma_page_two(
            of_link(o.name, link, "nper"@, link.nper_mbps),
            of_link(o.name, link, "vlper"@, link.vlper_mbps),
        );
    }
    lemma_each(p.links, f, g);
}

proof fn lemma_gcds(o: OutcomeView, p: PhyRatesView)
    ensures
        phy_rows(Metric::PhyRateGcd, o, p) == page_text(phy_samples(Metric::PhyRateGcd, o, p)),
        all_fit(phy_samples(Metric::PhyRateGcd, o, p)),
{
    let f = |gcd: (u32, u32)|
        seq![
            of_two(
                "gocoax_phy_rate_gcd_mbps"@,
                o.name,
                ("node"@, decimal(gcd.0 as nat)),
                decimal(gcd.1 as nat),
            ),
        ];
    let g = |gcd: (u32, u32)| gcd_line(o.name, gcd);
    lemma_metric_names();
    lemma_label_names();
    assert forall|i: int| 0 <= i < p.gcd_mbps.len() implies {
        &&& g(#[trigger] p.gcd_mbps[i]) == page_text(f(p.gcd_mbps[i]))
        &&& all_fit(f(p.gcd_mbps[i]))
    } by {
        let gcd = p.gcd_mbps[i];
        let label = ("node"@, decimal(gcd.0 as nat));
        lemma_decimal_plain(gcd.0 as nat);
        lemma_decimal_plain(gcd.1 as nat);
        lemma_labelled_line("gocoax_phy_rate_gcd_mbps"@, o.name, label, decimal(gcd.1 as nat));
        lemma_page_one(
            of_two("gocoax_phy_rate_gcd_mbps"@, o.name, label, decimal(gcd.1 as nat)),
        );
    }
    lemma_each(p.gcd_mbps, f, g);
}

proof fn lemma_node_versions(o: OutcomeView, p: PhyRatesView)
    ensures
        phy_rows(Metric::NodeVersion, o, p) == page_text(phy_samples(Metric::NodeVersion, o, p)),
        all_fit(phy_samples(Metric::NodeVersion, o, p)),
{
    let f = |node: (u32, u8)|
        seq![
            of_two(
                "gocoax_node_moca_version"@,
                o.name,
                ("node"@, decimal(node.0 as nat)),
                decimal((node.1 as nat / 16) * 10 + node.1 as nat % 16),
            ),
        ];
    let g = |node: (u32, u8)| node_version_line(o.name, node);
    lemma_metric_names();
    lemma_label_names();
    assert forall|i: int| 0 <= i < p.node_versions.len() implies {
        &&& g(#[trigger] p.node_versions[i]) == page_text(f(p.node_versions[i]))
        &&& all_fit(f(p.node_versions[i]))
    } by {
        let node = p.node_versions[i];
        let label = ("node"@, decimal(node.0 as nat));
        let version = decimal((node.1 as nat / 16) * 10 + node.1 as nat % 16);
        lemma_decimal_plain(node.0 as nat);
        lemma_decimal_plain((node.1 as nat / 16) * 10 + node.1 as nat % 16);
        lemma_labelled_line("gocoax_node_moca_version"@, o.name, label, version);
        lemma_page_one(of_two("gocoax_node_moca_version"@, o.name, label, version));
    }
    lemma_each(p.node_versions, f, g);
}

pub proof fn lemma_flag(b: bool)
    ensures
        flag_text(b) == one_or_zero(b),
        one_line(one_or_zero(b)),
{
    lemma_marks();
}

proof fn lemma_port_links(o: OutcomeView, s: DeviceStatusView)
    ensures
        status_rows(Metric::EthernetLinkUp, o, s) == page_text(
            status_samples(Metric::EthernetLinkUp, o, s),
        ),
        all_fit(status_samples(Metric::EthernetLinkUp, o, s)),
{
    let f = |p: EthPort|
        seq![
            of_two(
                "gocoax_ethernet_link_up"@,
                o.name,
                ("port"@, decimal(p.port as nat)),
                one_or_zero(p.link_up),
            ),
        ];
    let g = |p: EthPort| port_link_line(o.name, p);
    lemma_metric_names();
    lemma_label_names();
    assert forall|i: int| 0 <= i < s.eth_ports.len() implies {
        &&& g(#[trigger] s.eth_ports[i]) == page_text(f(s.eth_ports[i]))
        &&& all_fit(f(s.eth_ports[i]))
    } by {
        let p = s.eth_ports[i];
        let label = ("port"@, decimal(p.port as nat));
        lemma_flag(p.link_up);
        lemma_decimal_plain(p.port as nat);
        lemma_labelled_line("gocoax_ethernet_link_up"@, o.name, label, one_or_zero(p.link_up));
        lemma_page_one(
            of_two("gocoax_ethernet_link_up"@, o.name, label, one_or_zero(p.link_up)),
        );
    }
    lemma_each(s.eth_ports, f, g);
}

proof fn lemma_port_speeds(o: OutcomeView, s: DeviceStatusView)
    ensures
        status_rows(Metric::EthernetSpeed, o, s) == page_text(
            status_samples(Metric::EthernetSpeed, o, s),
        ),
        all_fit(status_samples(Metric::EthernetSpeed, o, s)),
{
    let f = |p: EthPort|
        seq![
            of_two(
                "gocoax_ethernet_speed_mbps"@,
                o.name,
                ("port"@, decimal(p.port as nat)),
                decimal(p.speed_mbps as nat),
            ),
        ];
    let g = |p: EthPort| port_speed_line(o.name, p);
    lemma_metric_names();
    lemma_label_names();
    assert forall|i: int| 0 <= i < s.eth_ports.len() implies {
        &&& g(#[trigger] s.eth_ports[i]) == page_text(f(s.eth_ports[i]))
        &&& all_fit(f(s.eth_ports[i]))
    } by {
        let p = s.eth_ports[i];
        let label = ("port"@, decimal(p.port as nat));
        lemma_decimal_plain(p.port as nat);
        lemma_decimal_plain(p.speed_mbps as nat);
        lemma_labelled_line(
            "gocoax_ethernet_speed_mbps"@,
            o.name,
            label,
            decimal(p.speed_mbps as nat),
        );
        lemma_page_one(
            of_two("gocoax_ethernet_speed_mbps"@, o.name, label, decimal(p.speed_mbps as nat)),
        );
    }
    lemma_each(s.eth_ports, f, g);
}

proof fn lemma_frames(metric: Seq<char>, device: Seq<char>, good: u64, bad: u64, dropped: u64)
    requires
        is_name(metric),
    ensures
        ({
            let list = seq![
                of_frames(metric, device, "good"@, good),
                of_frames(metric, device, "bad"@, bad),
                of_frames(metric, device, "dropped"@, dropped),
            ];
            &&& frame_lines(metric, device, good, bad, dropped) == page_text(list)
            &&& all_fit(list)
        }),
{
    let a = of_frames(metric, device, "good"@, good);
    let b = of_frames(metric, device, "bad"@, bad);
    let c = of_frames(metric, device, "dropped"@, dropped);
    lemma_words();
    lemma_frame_line(metric, device, "good"@, good);
    lemma_frame_line(metric, device, "bad"@, bad);
    lemma_frame_line(metric, device, "dropped"@, dropped);
    lemma_page_two(a, b);
    lemma_page_one(c);
    lemma_page_append(seq![a, b], seq![c]);
    assert(seq![a, b] + seq![c] =~= seq![a, b, c]);
}

proof fn lemma_errors(o: OutcomeView)
    ensures
        health_rows(Metric::ScrapeErrors, o) == page_text(health_samples(Metric::ScrapeErrors, o)),
        all_fit(health_samples(Metric::ScrapeErrors, o)),
{
    let f = |count: (Seq<char>, u64)|
        seq![
            of_two(
                "gocoax_scrape_errors_total"@,
                o.name,
                ("reason"@, count.0),
                decimal(count.1 as nat),
            ),
        ];
    let g = |count: (Seq<char>, u64)| error_line(o.name, count);
    lemma_metric_names();
    lemma_label_names();
    assert forall|i: int| 0 <= i < o.error_counts.len() implies {
        &&& g(#[trigger] o.error_counts[i]) == page_text(f(o.error_counts[i]))
        &&& all_fit(f(o.error_counts[i]))
    } by {
        let count = o.error_counts[i];
        let label = ("reason"@, count.0);
        lemma_decimal_plain(count.1 as nat);
        lemma_labelled_line("gocoax_scrape_errors_total"@, o.name, label, decimal(count.1 as nat));
        lemma_page_one(
            of_two("gocoax_scrape_errors_total"@, o.name, label, decimal(count.1 as nat)),
        );
    }
    lemma_each(o.error_counts, f, g);
}

/// Whether the texts that come with an outcome are one line each.
pub open spec fn plain_times(o: OutcomeView) -> bool {
    one_line(o.duration_secs) && (o.last_success_ts matches Some(ts) ==> one_line(ts))
}

proof fn lemma_health(metric: Metric, o: OutcomeView)
    requires
        plain_times(o),
    ensures
        health_rows(metric, o) == page_text(health_samples(metric, o)),
        all_fit(health_samples(metric, o)),
{
    lemma_metric_names();
    match metric {
        Metric::Up => {
            lemma_flag(o.up);
            lemma_device_line("gocoax_up"@, o.name, one_or_zero(o.up));
            lemma_page_one(of_device("gocoax_up"@, o.name, one_or_zero(o.up)));
        },
        Metric::ScrapeErrors => {
            lemma_errors(o);
        },
        Metric::ScrapeDuration => {
            lemma_device_line("gocoax_scrape_duration_seconds"@, o.name, o.duration_secs);
            lemma_page_one(of_device("gocoax_scrape_duration_seconds"@, o.name, o.duration_secs));
        },
        Metric::LastSuccess => {
            if let Some(ts) = o.last_success_ts {
                lemma_device_line("gocoax_last_success_timestamp_seconds"@, o.name, ts);
                lemma_page_one(of_device("gocoax_last_success_timestamp_seconds"@, o.name, ts));
            } else {
                assert(page_text(health_samples(metric, o)) =~= Seq::empty());
            }
        },
        _ => {
            assert(page_text(health_samples(metric, o)) =~= Seq::empty());
        },
    }
}

proof fn lemma_status(metric: Metric, o: OutcomeView, s: DeviceStatusView)
    ensures
        status_rows(metric, o, s) == page_text(status_samples(metric, o, s)),
        all_fit(status_samples(metric, o, s)),
{
    lemma_metric_names();
    match metric {
        Metric::Info => {
            lemma_info_line(o.name, o.host, s);
            lemma_page_one(of_info(o.name, o.host, s));
        },
        Metric::LinkUp => {
            lemma_flag(s.link_up);
            lemma_device_line("gocoax_moca_link_up"@, o.name, one_or_zero(s.link_up));
            lemma_page_one(of_device("gocoax_moca_link_up"@, o.name, one_or_zero(s.link_up)));
        },
        Metric::Nodes => {
            lemma_decimal_plain(s.node_count as nat);
            lemma_device_line("gocoax_moca_nodes"@, o.name, decimal(s.node_count as nat));
            lemma_page_one(
                of_device("gocoax_moca_nodes"@, o.name, decimal(s.node_count as nat)),
            );
        },
        Metric::TxFrames => {
            lemma_frames(
                "gocoax_ethernet_tx_frames_total"@,
                o.name,
                s.eth.tx_good,
                s.eth.tx_bad,
                s.eth.tx_dropped,
            );
        },
        Metric::RxFrames => {
            lemma_frames(
                "gocoax_ethernet_rx_frames_total"@,
                o.name,
                s.eth.rx_good,
                s.eth.rx_bad,
                s.eth.rx_dropped,
            );
        },
        Metric::EthernetLinkUp => {
            lemma_port_links(o, s);
        },
        Metric::EthernetSpeed => {
            lemma_port_speeds(o, s);
        },
        _ => {
            assert(page_text(status_samples(metric, o, s)) =~= Seq::empty());
        },
    }
}

proof fn lemma_phy(metric: Metric, o: OutcomeView, p: PhyRatesView)
    ensures
        phy_rows(metric, o, p) == page_text(phy_samples(metric, o, p)),
        all_fit(phy_samples(metric, o, p)),
{
    match metric {
        Metric::PhyRate => {
            lemma_links(o, p);
        },
        Metric::PhyRateGcd => {
            lemma_gcds(o, p);
        },
        Metric::NodeVersion => {
            lemma_node_versions(o, p);
        },
        _ => {
            assert(page_text(phy_samples(metric, o, p)) =~= Seq::empty());
        },
    }
}

proof fn lemma_device(metric: Metric, o: OutcomeView)
    requires
        plain_times(o),
    ensures
        rows(metric, o) == page_text(device_samples(metric, o)),
        all_fit(device_samples(metric, o)),
{
    let none = Seq::<Entry>::empty();
    lemma_health(metric, o);
    let health = health_samples(metric, o);
    assert(health + none =~= health);
    assert(none + health =~= health);
    if metric.is_health() {
        if let Some(s) = o.status {
            assert(status_samples(metric, o, s) =~= none);
            if let Some(p) = o.phy {
                assert(phy_samples(metric, o, p) =~= none);
                assert(none + none =~= none);
            }
        }
    } else {
        assert(health =~= none);
        assert(page_text(none) =~= Seq::empty());
        if let Some(s) = o.status {
            let status = status_samples(metric, o, s);
            lemma_status(metric, o, s);
            assert(none + status =~= status);
            if let Some(p) = o.phy {
                let phy = phy_samples(metric, o, p);
                lemma_phy(metric, o, p);
                if metric.is_phy() {
                    assert(status =~= none);
                    assert(none + (none + phy) =~= phy);
                } else {
                    assert(phy =~= none);
                    assert(none + (status + none) =~= status);
                }
            } else if metric.is_phy() {
                assert(status =~= none);
            }
        }
    }
}

proof fn lemma_samples(metric: Metric, os: Seq<OutcomeView>)
    requires
        forall|i: int| 0 <= i < os.len() ==> plain_times(#[trigger] os[i]),
    ensures
        samples(metric, os) == page_text(all_samples(metric, os)),
        all_fit(all_samples(metric, os)),
{
    let f = |o: OutcomeView| device_samples(metric, o);
    let g = |o: OutcomeView| rows(metric, o);
    assert forall|i: int| 0 <= i < os.len() implies {
        &&& g(#[trigger] os[i]) == page_text(f(os[i]))
        &&& all_fit(f(os[i]))
    } by {
        lemma_device(metric, os[i]);
    }
    lemma_each(os, f, g);
}

/// The help texts and the kinds are one line each.
proof fn lemma_helps(metric: Metric)
    ensures
        one_line(metric.spec_help()),
        one_line(metric.spec_kind()),
{
    reveal_strlit("counter");
    reveal_strlit("gauge");
    match metric {
        Metric::Up => {
            reveal_strlit("Current device read health (1=up, 0=down).");
        },
        Metric::ScrapeErrors => {
            reveal_strlit("Count of scrape errors by classified reason.");
        },
        Metric::ScrapeDuration => {
            reveal_strlit("Per-device scrape duration in seconds.");
        },
        Metric::LastSuccess => {
            reveal_strlit("Unix timestamp of the device's last fully successful scrape.");
        },
        Metric::Info => {
            reveal_strlit("Device identity/firmware info (label carrier, always 1).");
        },
        Metric::LinkUp => {
            reveal_strlit("Whether the device's MoCA link is up.");
        },
        Metric::Nodes => {
            reveal_strlit("Number of nodes on the MoCA network.");
        },
        Metric::PhyRate => {
            reveal_strlit("PHY rate between a node pair (self pair = per-node rate).");
        },
        Metric::PhyRateGcd => {
            reveal_strlit("Per-node GCD PHY rate.");
        },
        Metric::TxFrames => {
            reveal_strlit("Ethernet tx frame counters by status.");
        },
        Metric::RxFrames => {
            reveal_strlit("Ethernet rx frame counters by status.");
        },
        Metric::EthernetLinkUp => {
            reveal_strlit("Whether an ethernet port's link is up.");
        },
        Metric::EthernetSpeed => {
            reveal_strlit("Negotiated ethernet port speed in Mbps.");
        },
        Metric::NodeVersion => {
            reveal_strlit("Per-node MoCA protocol version (e.g. 25 = 2.5).");
        },
    }
}

/// A metric as entries, under its own name, kind and help.
spec fn shown(metric: Metric, os: Seq<OutcomeView>) -> Seq<Entry> {
    let list = all_samples(metric, os);
    if metric.always_shown() {
        announced(metric.spec_name(), metric.spec_kind(), metric.spec_help(), list)
    } else {
        section(metric.spec_name(), metric.spec_kind(), metric.spec_help(), list)
    }
}

proof fn lemma_metric(metric: Metric, os: Seq<OutcomeView>)
    requires
        forall|i: int| 0 <= i < os.len() ==> plain_times(#[trigger] os[i]),
    ensures
        metric_text(metric, os) == page_text(shown(metric, os)),
        all_fit(shown(metric, os)),
{
    lemma_metric_names();
    lemma_helps(metric);
    lemma_samples(metric, os);
    lemma_section(
        metric.spec_name(),
        metric.spec_kind(),
        metric.spec_help(),
        all_samples(metric, os),
    );
}

/// One more metric behind those before it.
proof fn lemma_step(os: Seq<OutcomeView>, k: int, listed: Seq<Entry>)
    requires
        forall|i: int| 0 <= i < os.len() ==> plain_times(#[trigger] os[i]),
        0 <= k < catalog().len(),
        all_fit(listed),
        cat(catalog().take(k), |metric: Metric| metric_text(metric, os)) == page_text(listed),
    ensures
        all_fit(listed + shown(catalog()[k], os)),
        cat(catalog().take(k + 1), |metric: Metric| metric_text(metric, os)) == page_text(
            listed + shown(catalog()[k], os),
        ),
{
    lemma_cat_step(catalog(), k, |metric: Metric| metric_text(metric, os));
    lemma_metric(catalog()[k], os);
    lemma_page_append(listed, shown(catalog()[k], os));
}

/// The exporter's page reads back as what was scraped: every metric under its name,
/// kind and help, and every sample of every device with its labels and its value.
pub proof fn law_page_tells_what_was_scraped(os: Seq<OutcomeView>)
    requires
        forall|i: int| 0 <= i < os.len() ==> plain_times(#[trigger] os[i]),
    ensures
        read_page(rendered(os)) == Some(listing(os)),
{
    lemma_rendered(os);
    law_page_reads_back(listing(os));
}

#[verifier::rlimit(40)]
#[verifier::spinoff_prover]
proof fn lemma_rendered(os: Seq<OutcomeView>)
    requires
        forall|i: int| 0 <= i < os.len() ==> plain_times(#[trigger] os[i]),
    ensures
        rendered(os) == page_text(listing(os)),
        all_fit(listing(os)),
{
    let f = |metric: Metric| metric_text(metric, os);
    let c = catalog();
    let p0 = Seq::<Entry>::empty();
    assert(c.take(0) =~= Seq::empty());
    assert(page_text(p0) =~= Seq::empty());
    assert(cat(c.take(0), f) =~= Seq::empty());
    let p1 = p0 + shown(c[0], os);
    lemma_step(os, 0, p0);
    let p2 = p1 + shown(c[1], os);
    lemma_step(os, 1, p1);
    let p3 = p2 + shown(c[2], os);
    lemma_step(os, 2, p2);
    let p4 = p3 + shown(c[3], os);
    lemma_step(os, 3, p3);
    let p5 = p4 + shown(c[4], os);
    lemma_step(os, 4, p4);
    let p6 = p5 + shown(c[5], os);
    lemma_step(os, 5, p5);
    let p7 = p6 + shown(c[6], os);
    lemma_step(os, 6, p6);
    let p8 = p7 + shown(c[7], os);
    lemma_step(os, 7, p7);
    let p9 = p8 + shown(c[8], os);
    lemma_step(os, 8, p8);
    let p10 = p9 + shown(c[9], os);
    lemma_step(os, 9, p9);
    let p11 = p10 + shown(c[10], os);
    lemma_step(os, 10, p10);
    let p12 = p11 + shown(c[11], os);
    lemma_step(os, 11, p11);
    let p13 = p12 + shown(c[12], os);
    lemma_step(os, 12, p12);
    let p14 = p13 + shown(c[13], os);
    lemma_step(os, 13, p13);
    assert(c.take(14) =~= c);
    assert(p0 + shown(c[0], os) =~= shown(Metric::Up, os));
    assert(p14 == listing(os));
}

/// The rates of different links are told apart by their labels, and so are the two
/// rates of a link.
pub proof fn law_links_told_apart(
    device: Seq<char>,
    x: PhyLink,
    y: PhyLink,
    kind_x: Seq<char>,
    kind_y: Seq<char>,
)
    ensures
        of_link(device, x, kind_x, 0)->labels == of_link(device, y, kind_y, 0)->labels <==> (
        x.from_node == y.from_node && x.to_node == y.to_node && kind_x == kind_y),
{
    let a = of_link(device, x, kind_x, 0)->labels;
    let b = of_link(device, y, kind_y, 0)->labels;
    law_decimal_tells_apart(x.from_node as nat, y.from_node as nat);
    law_decimal_tells_apart(x.to_node as nat, y.to_node as nat);
    if a == b {
        assert(a[1] == b[1]);
        assert(a[2] == b[2]);
        assert(a[3] == b[3]);
    }
}

/// Two pages are the same only where what they tell is.
pub proof fn law_pages_told_apart(a: Seq<OutcomeView>, b: Seq<OutcomeView>)
    requires
        forall|i: int| 0 <= i < a.len() ==> plain_times(#[trigger] a[i]),
        forall|i: int| 0 <= i < b.len() ==> plain_times(#[trigger] b[i]),
    ensures
        rendered(a) == rendered(b) <==> listing(a) == listing(b),
{
    law_page_tells_what_was_scraped(a);
    law_page_tells_what_was_scraped(b);
    lemma_rendered(a);
    lemma_rendered(b);
}

} // verus!
