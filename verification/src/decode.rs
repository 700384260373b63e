//! Decoders from register words to typed values. None of them reads past the
//! words it is given: a short answer is an error.

use crate::error::{outcome_is, Error, ErrorView, Result};
use crate::net::{address_of, byte_at, byte_of, lemma_address_of, Ipv4Addr};
use crate::text::{decimal, decimal_text, hex_byte, push_hex_byte};
use vstd::prelude::*;

verus! {

/// A MoCA network has at most this many nodes, with ids `0..MAX_NODES`.
pub const MAX_NODES: u32 = 16;

/// What reading word `idx` of an answer of `len` words to `cmd` fails with.
pub open spec fn out_of_range(len: nat, idx: nat, cmd: Seq<char>) -> ErrorView {
    ErrorView::Decode {
        cmd,
        reason: "index "@ + decimal(idx) + " out of range (len "@ + decimal(len) + ")"@,
    }
}

/// Word `idx` of the answer to `cmd`, or the error of an answer too short.
pub open spec fn word(
    words: Seq<u32>,
    idx: nat,
    cmd: Seq<char>,
) -> core::result::Result<u32, ErrorView> {
    if idx < words.len() {
        Ok(words[idx as int])
    } else {
        Err(out_of_range(words.len(), idx, cmd))
    }
}

/// Reads word `idx` of the answer to `cmd`.
pub fn get(words: &[u32], idx: usize, cmd: &str) -> (r: Result<u32>)
    ensures
        outcome_is(r, word(words@, idx as nat, cmd@)),
{
    if idx < words.len() {
        Ok(words[idx])
    } else {
        let at = decimal_text(idx as u64);
        let len = decimal_text(words.len() as u64);
        Err(
            Error::Decode {
                cmd: cmd.to_owned(),
                reason: "index ".to_owned().concat(at.as_str()).concat(" out of range (len ").concat(
                    len.as_str(),
                ).concat(")"),
            },
        )
    }
}

/// Whether node `node` is on the network that `node_bitmask` describes.
pub open spec fn is_present(node_bitmask: u32, node: u32) -> bool {
    node_bitmask & (1u32 << node) != 0
}

/// The address that a register word holds.
pub fn word_to_ipv4(w: u32) -> (r: Ipv4Addr)
    ensures
        r == (Ipv4Addr { a: byte_of(w, 0), b: byte_of(w, 1), c: byte_of(w, 2), d: byte_of(w, 3) }),
        r.number() == w,
        r == address_of(w as nat),
{
    let r = Ipv4Addr::from_word(w);
    proof {
        lemma_address_of(r);
    }
    r
}

/// The MAC address held by the four bytes of `hi` and the upper two of `lo`.
pub open spec fn mac_text(hi: u32, lo: u32) -> Seq<char> {
    hex_byte(byte_of(hi, 0)) + ":"@ + hex_byte(byte_of(hi, 1)) + ":"@ + hex_byte(byte_of(hi, 2))
        + ":"@ + hex_byte(byte_of(hi, 3)) + ":"@ + hex_byte(byte_of(lo, 0)) + ":"@ + hex_byte(
        byte_of(lo, 1),
    )
}

pub fn words_to_mac(hi: u32, lo: u32) -> (r: String)
    ensures
        r@ == mac_text(hi, lo),
{
    let mut r: String = String::new();
    push_hex_byte(&mut r, byte_at(hi, 0));
    assert(r@ =~= hex_byte(byte_of(hi, 0)));
    r = r.concat(":");
    push_hex_byte(&mut r, byte_at(hi, 1));
    r = r.concat(":");
    push_hex_byte(&mut r, byte_at(hi, 2));
    r = r.concat(":");
    push_hex_byte(&mut r, byte_at(hi, 3));
    r = r.concat(":");
    push_hex_byte(&mut r, byte_at(lo, 0));
    r = r.concat(":");
    push_hex_byte(&mut r, byte_at(lo, 1));
    r
}

/// The bytes of register words, most significant first.
pub open spec fn bytes_of(words: Seq<u32>) -> Seq<u8> {
    Seq::new(words.len() * 4, |i: int| byte_of(words[i / 4], (i % 4) as u32))
}

/// The printable characters before the first zero byte.
pub open spec fn printable(bytes: Seq<u8>) -> Seq<char>
    decreases bytes.len(),
{
    if bytes.len() == 0 || bytes[0] == 0 {
        Seq::empty()
    } else if 0x21 <= bytes[0] <= 0x7e {
        seq![bytes[0] as char] + printable(bytes.skip(1))
    } else {
        printable(bytes.skip(1))
    }
}

/// The text that register words hold: their printable characters up to the
/// first zero byte.
pub fn words_to_ascii(words: &[u32]) -> (r: String)
    ensures
        r@ == printable(bytes_of(words@)),
{
    let ghost bytes = bytes_of(words@);
    let mut out: String = String::new();
    let mut i: usize = 0;
    assert(bytes.skip(0) =~= bytes);
    assert(out@ + printable(bytes) =~= printable(bytes));
    while i < words.len()
        invariant
            i <= words.len(),
            bytes == bytes_of(words@),
            printable(bytes) == out@ + printable(bytes.skip(4 * i)),
        decreases words.len() - i,
    {
        let w: u32 = words[i];
        let mut k: u32 = 0;
        while k < 4
            invariant
                k <= 4,
                i < words.len(),
                w == words@[i as int],
                bytes == bytes_of(words@),
                printable(bytes) == out@ + printable(bytes.skip(4 * i + k)),
            decreases 4 - k,
        {
            let b: u8 = byte_at(w, k);
            let ghost rest = bytes.skip(4 * i + k);
            let ghost before = out@;
            proof {
                assert(rest[0] == bytes[4 * i + k]);
                assert((4 * i + k) / 4 == i && (4 * i + k) % 4 == k as int);
                assert(rest.skip(1) =~= bytes.skip(4 * i + k + 1));
            }
            if b == 0 {
                assert(out@ + Seq::<char>::empty() =~= out@);
                return out;
            }
            if 0x21 <= b && b <= 0x7e {
                out.push(b as char);
                assert(before + (seq![b as char] + printable(rest.skip(1))) =~= out@ + printable(
                    rest.skip(1),
                ));
            }
            k = k + 1;
        }
        i = i + 1;
    }
    assert(out@ + Seq::<char>::empty() =~= out@);
    out
}

/// The 64-bit number whose upper half is `hi` and whose lower half is `lo`.
pub fn u64_from_pair(hi: u32, lo: u32) -> (r: u64)
    ensures
        r == hi * 0x1_0000_0000 + lo,
{
    let r: u64 = ((hi as u64) << 32) | (lo as u64);
    assert(((hi as u64) << 32) | (lo as u64) == hi * 0x1_0000_0000 + lo) by (bit_vector);
    r
}

/// The error of the first of the words `idxs` that is missing from the answer
/// to `cmd`, if one is.
pub open spec fn first_missing(words: Seq<u32>, idxs: Seq<nat>, cmd: Seq<char>) -> Option<ErrorView>
    decreases idxs.len(),
{
    if idxs.len() == 0 {
        None
    } else if idxs[0] >= words.len() {
        Some(out_of_range(words.len(), idxs[0], cmd))
    } else {
        first_missing(words, idxs.skip(1), cmd)
    }
}

/// Frames that an adapter sent and received over Ethernet.
#[derive(Debug, Clone, Copy, PartialEq, Eq, Structural)]
pub struct EthCounters {
    pub tx_good: u64,
    pub tx_bad: u64,
    pub tx_dropped: u64,
    pub rx_good: u64,
    pub rx_bad: u64,
    pub rx_dropped: u64,
}

/// The 64-bit counter whose upper word is word `at`.
pub open spec fn counter_at(frame: Seq<u32>, at: int) -> int {
    frame[at] * 0x1_0000_0000 + frame[at + 1]
}

impl EthCounters {
    /// The words that hold the counters.
    pub open spec fn word_list() -> Seq<nat> {
        seq![12, 13, 30, 31, 48, 49, 66, 67, 84, 85, 102, 103]
    }

    /// The counters of `frame`.
    pub open spec fn of(frame: Seq<u32>) -> EthCounters {
        EthCounters {
            tx_good: counter_at(frame, 12) as u64,
            tx_bad: counter_at(frame, 30) as u64,
            tx_dropped: counter_at(frame, 48) as u64,
            rx_good: counter_at(frame, 66) as u64,
            rx_bad: counter_at(frame, 84) as u64,
            rx_dropped: counter_at(frame, 102) as u64,
        }
    }

    /// Decodes the frame counters.
    pub fn decode(frame: &[u32]) -> (r: Result<EthCounters>)
        ensures
            match (r, first_missing(frame@, EthCounters::word_list(), "0x14"@)) {
                (Ok(c), None) => c == EthCounters::of(frame@),
                (Err(e), Some(expected)) => e@ == expected,
                _ => false,
            },
            r is Ok <==> frame@.len() > 103,
    {
        proof {
            lemma_twelve(frame@, "0x14"@);
        }
        let tx_good = pair_at(frame, 12)?;
        let tx_bad = pair_at(frame, 30)?;
        let tx_dropped = pair_at(frame, 48)?;
        let rx_good = pair_at(frame, 66)?;
        let rx_bad = pair_at(frame, 84)?;
        let rx_dropped = pair_at(frame, 102)?;
        Ok(EthCounters { tx_good, tx_bad, tx_dropped, rx_good, rx_bad, rx_dropped })
    }
}

/// The word of the counters that is reported missing.
proof fn lemma_twelve(frame: Seq<u32>, cmd: Seq<char>)
    ensures
        first_missing(frame, EthCounters::word_list(), cmd) == (if frame.len() > 103 {
            None
        } else {
            let n = frame.len();
            let at: nat = if n <= 12 {
                12
            } else if n <= 13 {
                13
            } else if n <= 30 {
                30
            } else if n <= 31 {
                31
            } else if n <= 48 {
                48
            } else if n <= 49 {
                49
            } else if n <= 66 {
                66
            } else if n <= 67 {
                67
            } else if n <= 84 {
                84
            } else if n <= 85 {
                85
            } else if n <= 102 {
                102
            } else {
                103
            };
            Some(out_of_range(n, at, cmd))
        }),
{
    reveal_with_fuel(first_missing, 13);
}

/// The counter whose upper word is word `at` of the frame counters.
fn pair_at(frame: &[u32], at: usize) -> (r: Result<u64>)
    requires
        at < 1000,
    ensures
        match r {
            Ok(n) => at + 1 < frame@.len() && n == counter_at(frame@, at as int),
            Err(e) => at + 1 >= frame@.len() && e@ == out_of_range(
                frame@.len(),
                if at >= frame@.len() {
                    at as nat
                } else {
                    (at + 1) as nat
                },
                "0x14"@,
            ),
        },
{
    let hi = get(frame, at, "0x14")?;
    let lo = get(frame, at + 1, "0x14")?;
    Ok(u64_from_pair(hi, lo))
}

/// The state of one Ethernet port.
#[derive(Debug, Clone, Copy, PartialEq, Eq, Structural)]
pub struct EthPort {
    pub port: u32,
    pub link_up: bool,
    pub speed_mbps: u32,
    pub duplex_full: bool,
}

/// The speed in Mbps that a speed index stands for; 0 where it is unknown.
pub open spec fn speed_of(idx: u32) -> u32 {
    if idx == 0 {
        10
    } else if idx == 1 {
        100
    } else if idx == 2 {
        1000
    } else if idx == 4 {
        2500
    } else {
        0
    }
}

fn speed_mbps(idx: u32) -> (r: u32)
    ensures
        r == speed_of(idx),
{
    match idx {
        0 => 10,
        1 => 100,
        2 => 1000,
        4 => 2500,
        _ => 0,
    }
}

/// Port `i`, from its three words: link, speed index, duplex.
pub open spec fn port_of(eth: Seq<u32>, i: int) -> EthPort {
    EthPort {
        port: i as u32,
        link_up: eth[3 * i] != 0,
        speed_mbps: speed_of(eth[3 * i + 1]),
        duplex_full: eth[3 * i + 2] != 0,
    }
}

/// The ports that `eth` describes in full, but for port 0.
pub open spec fn ports_of(eth: Seq<u32>) -> Seq<EthPort> {
    Seq::new(
        if eth.len() < 6 {
            0
        } else {
            (eth.len() / 3 - 1) as nat
        },
        |k: int| port_of(eth, k + 1),
    )
}

/// Decodes the port words, three per port. Port 0 is left out, as is a port
/// whose words are not all there; this never fails.
pub fn decode_eth_ports(eth: &[u32]) -> (r: Result<Vec<EthPort>>)
    ensures
        r matches Ok(ports) && ports@ == ports_of(eth@),
{
    let len: usize = eth.len();
    let ports: usize = len / 3;
    let mut out: Vec<EthPort> = Vec::new();
    let mut i: usize = 1;
    while i < ports
        invariant
            1 <= i,
            ports <= 1 ==> i == 1,
            ports >= 1 ==> i <= ports,
            len == eth@.len(),
            ports == len / 3,
            out@ == Seq::new((i - 1) as nat, |k: int| port_of(eth@, k + 1)),
        decreases ports - i,
    {
        assert(i * 3 + 2 < len);
        let link = get(eth, i * 3, "0x307")?;
        let speed_idx = get(eth, i * 3 + 1, "0x307")?;
        let duplex = get(eth, i * 3 + 2, "0x307")?;
        out.push(
            EthPort {
                port: i as u32,
                link_up: link != 0,
                speed_mbps: speed_mbps(speed_idx),
                duplex_full: duplex != 0,
            },
        );
        i = i + 1;
        assert(out@ =~= Seq::new((i - 1) as nat, |k: int| port_of(eth@, k + 1)));
    }
    assert(out@ =~= ports_of(eth@));
    Ok(out)
}

/// A version byte as its two digits, e.g. `0x25` as "2.5".
pub open spec fn version_text(raw: u32) -> Seq<char> {
    decimal(((raw >> 4) & 0xf) as nat) + "."@ + decimal((raw & 0xf) as nat)
}

fn version_string(raw: u32) -> (r: String)
    ensures
        r@ == version_text(raw),
{
    let minor = decimal_text((raw & 0xf) as u64);
    decimal_text(((raw >> 4) & 0xf) as u64).concat(".").concat(minor.as_str())
}

/// The number of nodes below `upto` that `node_bitmask` has.
pub open spec fn nodes_below(node_bitmask: u32, upto: nat) -> nat
    decreases upto,
{
    if upto == 0 {
        0
    } else {
        nodes_below(node_bitmask, (upto - 1) as nat) + if is_present(
            node_bitmask,
            (upto - 1) as u32,
        ) {
            1nat
        } else {
            0
        }
    }
}

/// The number of bits set in `node_bitmask`.
pub fn count_nodes(node_bitmask: u32) -> (r: u32)
    ensures
        r == nodes_below(node_bitmask, 32),
{
    let mut n: u32 = 0;
    let mut i: u32 = 0;
    while i < 32
        invariant
            i <= 32,
            n <= i,
            n == nodes_below(node_bitmask, i as nat),
        decreases 32 - i,
    {
        if node_bitmask & (1u32 << i) != 0 {
            n = n + 1;
        }
        i = i + 1;
    }
    n
}

/// What an adapter reports of itself.
#[derive(Debug, Clone)]
pub struct DeviceStatus {
    pub soc_version: String,
    pub moca_version: String,
    pub node_bitmask: u32,
    pub node_count: u32,
    pub my_node_id: u32,
    pub link_up: bool,
    pub mac: String,
    pub ip: Ipv4Addr,
    pub beacon_channel_mhz: u32,
    pub eth: EthCounters,
    pub eth_ports: Vec<EthPort>,
}

/// A [`DeviceStatus`] with its texts and lists as sequences.
#[verifier::ext_equal]
pub struct DeviceStatusView {
    pub soc_version: Seq<char>,
    pub moca_version: Seq<char>,
    pub node_bitmask: u32,
    pub node_count: u32,
    pub my_node_id: u32,
    pub link_up: bool,
    pub mac: Seq<char>,
    pub ip: Ipv4Addr,
    pub beacon_channel_mhz: u32,
    pub eth: EthCounters,
    pub eth_ports: Seq<EthPort>,
}

impl View for DeviceStatus {
    type V = DeviceStatusView;

    open spec fn view(&self) -> DeviceStatusView {
        DeviceStatusView {
            soc_version: self.soc_version@,
            moca_version: self.moca_version@,
            node_bitmask: self.node_bitmask,
            node_count: self.node_count,
            my_node_id: self.my_node_id,
            link_up: self.link_up,
            mac: self.mac@,
            ip: self.ip,
            beacon_channel_mhz: self.beacon_channel_mhz,
            eth: self.eth,
            eth_ports: self.eth_ports@,
        }
    }
}

impl DeviceStatus {
    /// The first word that is missing, in the order in which they are read.
    pub open spec fn missing(
        local: Seq<u32>,
        mac: Seq<u32>,
        frame: Seq<u32>,
        ip: Seq<u32>,
        lof: Seq<u32>,
    ) -> Option<ErrorView> {
        let of_local = first_missing(local, seq![11, 12, 21, 22, 0, 5], "0x15"@);
        let of_mac = first_missing(mac, seq![0, 1], "0x103"@);
        let of_ip = first_missing(ip, seq![0], "0x20b"@);
        let of_lof = first_missing(lof, seq![0], "0x1003"@);
        let of_frame = first_missing(frame, EthCounters::word_list(), "0x14"@);
        if of_local is Some {
            of_local
        } else if of_mac is Some {
            of_mac
        } else if of_ip is Some {
            of_ip
        } else if of_lof is Some {
            of_lof
        } else {
            of_frame
        }
    }

    /// What the given answers say.
    pub open spec fn of(
        local: Seq<u32>,
        mac: Seq<u32>,
        frame: Seq<u32>,
        ip: Seq<u32>,
        lof: Seq<u32>,
        eth: Seq<u32>,
    ) -> core::result::Result<DeviceStatusView, ErrorView> {
        match DeviceStatus::missing(local, mac, frame, ip, lof) {
            Some(e) => Err(e),
            None => Ok(
                DeviceStatusView {
                    soc_version: printable(bytes_of(seq![local[21], local[22]])),
                    moca_version: version_text(local[11]),
                    node_bitmask: local[12],
                    node_count: nodes_below(local[12], 32) as u32,
                    my_node_id: local[0],
                    link_up: local[5] == 1,
                    mac: mac_text(mac[0], mac[1]),
                    ip: address_of(ip[0] as nat),
                    beacon_channel_mhz: lof[0],
                    eth: EthCounters::of(frame),
                    eth_ports: ports_of(eth),
                },
            ),
        }
    }

    /// Decodes the answers to the six status registers.
    pub fn decode(
        local: &[u32],
        mac: &[u32],
        frame: &[u32],
        ip: &[u32],
        lof: &[u32],
        eth: &[u32],
    ) -> (r: Result<DeviceStatus>)
        ensures
            outcome_is(r, DeviceStatus::of(local@, mac@, frame@, ip@, lof@, eth@)),
            r is Ok <==> local@.len() > 22 && mac@.len() > 1 && ip@.len() > 0 && lof@.len() > 0
                && frame@.len() > 103,
    {
        proof {
            reveal_with_fuel(first_missing, 7);
            lemma_twelve(frame@, "0x14"@);
        }
        let moca_raw = get(local, 11, "0x15")?;
        let node_bitmask = get(local, 12, "0x15")?;
        let soc_hi = get(local, 21, "0x15")?;
        let soc_lo = get(local, 22, "0x15")?;
        let my_node_id = get(local, 0, "0x15")?;
        let link = get(local, 5, "0x15")?;
        let mac_hi = get(mac, 0, "0x103")?;
        let mac_lo = get(mac, 1, "0x103")?;
        let ip_word = get(ip, 0, "0x20b")?;
        let beacon_channel_mhz = get(lof, 0, "0x1003")?;
        let eth_counters = EthCounters::decode(frame)?;
        let eth_ports = decode_eth_ports(eth)?;
        let soc_words: Vec<u32> = vec![soc_hi, soc_lo];
        assert(soc_words@ =~= seq![local@[21], local@[22]]);
        let status = DeviceStatus {
            soc_version: words_to_ascii(soc_words.as_slice()),
            moca_version: version_string(moca_raw),
            node_bitmask,
            node_count: count_nodes(node_bitmask),
            my_node_id,
            link_up: link == 1,
            mac: words_to_mac(mac_hi, mac_lo),
            ip: word_to_ipv4(ip_word),
            beacon_channel_mhz,
            eth: eth_counters,
            eth_ports,
        };
        assert(Ok::<DeviceStatusView, ErrorView>(status@) =~= DeviceStatus::of(
            local@,
            mac@,
            frame@,
            ip@,
            lof@,
            eth@,
        ));
        Ok(status)
    }
}

/// The present nodes below `upto`, in order.
pub open spec fn present_nodes(node_bitmask: u32, upto: nat) -> Seq<u32>
    decreases upto,
{
    if upto == 0 {
        Seq::empty()
    } else {
        let before = present_nodes(node_bitmask, (upto - 1) as nat);
        if is_present(node_bitmask, (upto - 1) as u32) {
            before.push((upto - 1) as u32)
        } else {
            before
        }
    }
}

/// The present nodes, in order.
pub fn nodes_in(node_bitmask: u32) -> (r: Vec<u32>)
    ensures
        r@ == present_nodes(node_bitmask, MAX_NODES as nat),
{
    let mut out: Vec<u32> = Vec::new();
    let mut i: u32 = 0;
    while i < MAX_NODES
        invariant
            i <= MAX_NODES,
            out@ == present_nodes(node_bitmask, i as nat),
        decreases MAX_NODES - i,
    {
        if node_bitmask & (1u32 << i) != 0 {
            out.push(i);
        }
        i = i + 1;
    }
    out
}

/// A node of the MoCA network as an adapter reports it.
#[derive(Debug, Clone, PartialEq, Eq)]
pub struct MocaNode {
    pub node_id: u32,
    pub mac: String,
    pub moca_version: String,
}

/// A [`MocaNode`] with its texts as character sequences.
#[verifier::ext_equal]
pub struct MocaNodeView {
    pub node_id: u32,
    pub mac: Seq<char>,
    pub moca_version: Seq<char>,
}

impl View for MocaNode {
    type V = MocaNodeView;

    open spec fn view(&self) -> MocaNodeView {
        MocaNodeView {
            node_id: self.node_id,
            mac: self.mac@,
            moca_version: self.moca_version@,
        }
    }
}

/// What `net` says of node `id`.
pub open spec fn node_of(id: u32, net: Seq<u32>) -> core::result::Result<MocaNodeView, ErrorView> {
    match word(net, 4, "0x16"@) {
        Err(e) => Err(e),
        Ok(ver) => Ok(
            MocaNodeView {
                node_id: id,
                mac: mac_text(net[0], net[1]),
                moca_version: version_text(ver & 0xff),
            },
        ),
    }
}

/// What the answers `nets` say of the nodes `ids`, up to the first error.
pub open spec fn nodes_of(ids: Seq<u32>, nets: Seq<Seq<u32>>) -> core::result::Result<
    Seq<MocaNodeView>,
    ErrorView,
>
    decreases nets.len(),
{
    if nets.len() == 0 {
        Ok(Seq::empty())
    } else {
        match nodes_of(ids, nets.drop_last()) {
            Err(e) => Err(e),
            Ok(before) => match node_of(ids[nets.len() - 1], nets.last()) {
                Err(e) => Err(e),
                Ok(node) => Ok(before.push(node)),
            },
        }
    }
}

/// The nodes by their views.
pub open spec fn node_views(nodes: Seq<MocaNode>) -> Seq<MocaNodeView> {
    nodes.map_values(|n: MocaNode| n@)
}

/// The words of each answer.
pub open spec fn word_views(nets: Seq<Vec<u32>>) -> Seq<Seq<u32>> {
    nets.map_values(|net: Vec<u32>| net@)
}

/// Whether `nets` are answers that `net_of` can give for the first of `ids`,
/// one each.
pub open spec fn answers<F: Fn(u32) -> Vec<u32>>(
    net_of: F,
    ids: Seq<u32>,
    nets: Seq<Vec<u32>>,
) -> bool {
    &&& nets.len() <= ids.len()
    &&& forall|k: int| 0 <= k < nets.len() ==> call_ensures(net_of, (ids[k],), #[trigger] nets[k])
}

/// Whether `net_of` can be asked for each of `ids` in turn: for one of them only
/// when those before it were answered, each once and at full length.
pub open spec fn askable<F: Fn(u32) -> Vec<u32>>(net_of: F, ids: Seq<u32>) -> bool {
    forall|nets: Seq<Vec<u32>>| #[trigger]
        answers(net_of, ids, nets) && nets.len() < ids.len() && nodes_of(ids, word_views(nets))
            is Ok ==> call_requires(net_of, (ids[nets.len() as int],))
}

/// Whether `r` is what the answers `nets` say of the nodes `ids`: all of them,
/// or the error of the last answer.
pub open spec fn nodes_read(ids: Seq<u32>, nets: Seq<Vec<u32>>, r: Result<Vec<MocaNode>>) -> bool {
    match r {
        Ok(nodes) => nets.len() == ids.len() && nodes_of(ids, word_views(nets)) == Ok::<
            Seq<MocaNodeView>,
            ErrorView,
        >(node_views(nodes@)),
        Err(e) => nodes_of(ids, word_views(nets)) == Err::<Seq<MocaNodeView>, ErrorView>(e@),
    }
}

/// Whether `r` is what `net_of` can say of the nodes `ids`.
pub open spec fn nodes_listed<F: Fn(u32) -> Vec<u32>>(
    net_of: F,
    ids: Seq<u32>,
    r: Result<Vec<MocaNode>>,
) -> bool {
    exists|nets: Seq<Vec<u32>>| answers(net_of, ids, nets) && #[trigger] nodes_read(ids, nets, r)
}

/// Decodes what `net` says of node `id`.
pub fn decode_node(id: u32, net: &[u32]) -> (r: Result<MocaNode>)
    ensures
        outcome_is(r, node_of(id, net@)),
{
    let ver = get(net, 4, "0x16")?;
    let hi = get(net, 0, "0x16")?;
    let lo = get(net, 1, "0x16")?;
    Ok(
        MocaNode {
            node_id: id,
            mac: words_to_mac(hi, lo),
            moca_version: version_string(ver & 0xff),
        },
    )
}

fn list_nodes<F: Fn(u32) -> Vec<u32>>(ids: &[u32], net_of: F) -> (r: Result<Vec<MocaNode>>)
    requires
        askable(net_of, ids@),
    ensures
        nodes_listed(net_of, ids@, r),
{
    let ghost mut nets: Seq<Vec<u32>> = Seq::empty();
    let mut out: Vec<MocaNode> = Vec::new();
    let mut k: usize = 0;
    assert(word_views(nets) =~= Seq::empty());
    assert(node_views(out@) =~= Seq::empty());
    while k < ids.len()
        invariant
            k <= ids.len(),
            k == nets.len(),
            askable(net_of, ids@),
            answers(net_of, ids@, nets),
            nodes_of(ids@, word_views(nets)) == Ok::<Seq<MocaNodeView>, ErrorView>(
                node_views(out@),
            ),
        decreases ids.len() - k,
    {
        let id: u32 = ids[k];
        let net = net_of(id);
        let ghost before = nets;
        proof {
            nets = nets.push(net);
            assert(word_views(nets).drop_last() =~= word_views(before));
            assert(word_views(nets).last() == net@);
        }
        let ghost shown = node_views(out@);
        let node = match decode_node(id, net.as_slice()) {
            Ok(node) => node,
            Err(e) => {
                assert(nodes_read(ids@, nets, Err(e)));
                return Err(e);
            },
        };
        out.push(node);
        assert(node_views(out@) =~= shown.push(node@));
        k = k + 1;
    }
    assert(nodes_read(ids@, nets, Ok(out)));
    Ok(out)
}

/// Lists the nodes of the network that `local` reports. `net_of` gives the
/// words that the adapter holds of a node; it is asked for each present node in
/// turn, until an answer is too short, and for no other node.
pub fn decode_net_nodes<F: Fn(u32) -> Vec<u32>>(local: &[u32], net_of: F) -> (r: Result<
    Vec<MocaNode>,
>)
    requires
        word(local@, 12, "0x15"@) matches Ok(node_bitmask) ==> askable(
            net_of,
            present_nodes(node_bitmask, MAX_NODES as nat),
        ),
    ensures
        match word(local@, 12, "0x15"@) {
            Err(e) => r matches Err(actual) && actual@ == e,
            Ok(node_bitmask) => nodes_listed(
                net_of,
                present_nodes(node_bitmask, MAX_NODES as nat),
                r,
            ),
        },
{
    let node_bitmask = get(local, 12, "0x15")?;
    let ids = nodes_in(node_bitmask);
    list_nodes(ids.as_slice(), net_of)
}

/// Present nodes are below the bound, distinct and in ascending order.
pub proof fn lemma_present_nodes(node_bitmask: u32, upto: nat)
    requires
        upto <= 32,
    ensures
        present_nodes(node_bitmask, upto).len() == nodes_below(node_bitmask, upto) <= upto,
        forall|i: int|
            0 <= i < present_nodes(node_bitmask, upto).len() ==> #[trigger] present_nodes(
                node_bitmask,
                upto,
            )[i] < upto && is_present(node_bitmask, present_nodes(node_bitmask, upto)[i]),
        forall|i: int, j: int|
            0 <= i < j < present_nodes(node_bitmask, upto).len() ==> #[trigger] present_nodes(
                node_bitmask,
                upto,
            )[i] < #[trigger] present_nodes(node_bitmask, upto)[j],
        forall|node: u32|
            node < upto && is_present(node_bitmask, node) ==> present_nodes(
                node_bitmask,
                upto,
            ).contains(node),
    decreases upto,
{
    if upto > 0 {
        let n = (upto - 1) as nat;
        lemma_present_nodes(node_bitmask, n);
        let before = present_nodes(node_bitmask, n);
        let all = present_nodes(node_bitmask, upto);
        assert forall|node: u32| node < upto && is_present(node_bitmask, node) implies all.contains(
            node,
        ) by {
            if node < n {
                assert(before.contains(node));
                let i = choose|i: int| 0 <= i < before.len() && before[i] == node;
                assert(all[i] == node);
            } else {
                assert(all.last() == node);
            }
        }
    }
}

proof fn lemma_nodes_of(ids: Seq<u32>, nets: Seq<Seq<u32>>)
    ensures
        nodes_of(ids, nets) is Ok <==> forall|k: int|
            0 <= k < nets.len() ==> (#[trigger] nets[k]).len() >= 5,
        nodes_of(ids, nets) matches Ok(nodes) ==> nodes.len() == nets.len() && forall|k: int|
            0 <= k < nets.len() ==> #[trigger] nodes[k] == (MocaNodeView {
                node_id: ids[k],
                mac: mac_text(nets[k][0], nets[k][1]),
                moca_version: version_text(nets[k][4] & 0xff),
            }),
        nodes_of(ids, nets) matches Err(e) ==> (e matches ErrorView::Decode { cmd, .. } && cmd
            == "0x16"@),
    decreases nets.len(),
{
    if nets.len() > 0 {
        let before = nets.drop_last();
        let n = nets.len() - 1;
        lemma_nodes_of(ids, before);
        assert(forall|k: int| 0 <= k < n ==> #[trigger] nets[k] == before[k]);
        if forall|k: int| 0 <= k < nets.len() ==> (#[trigger] nets[k]).len() >= 5 {
            assert forall|k: int| 0 <= k < before.len() implies (#[trigger] before[k]).len()
                >= 5 by {
                assert(nets[k].len() >= 5);
            }
            assert(nets[n].len() >= 5);
        }
        if let Ok(nodes) = nodes_of(ids, nets) {
            let shorter = nodes_of(ids, before)->Ok_0;
            assert forall|k: int| 0 <= k < nets.len() implies #[trigger] nodes[k] == (MocaNodeView {
                node_id: ids[k],
                mac: mac_text(nets[k][0], nets[k][1]),
                moca_version: version_text(nets[k][4] & 0xff),
            }) by {
                if k < n {
                    assert(nodes[k] == shorter[k]);
                }
            }
            assert forall|k: int| 0 <= k < nets.len() implies (#[trigger] nets[k]).len() >= 5 by {
                if k < n {
                    assert(before[k].len() >= 5);
                }
            }
        }
    }
}

/// Where what the adapter holds of a node depends on the node alone, a listing
/// succeeds exactly where it holds at least five words of every one of `ids`. It
/// then has each of them once, in order, with its address and its version; else it
/// is the error of an answer too short.
pub proof fn law_every_node_listed<F: Fn(u32) -> Vec<u32>>(
    net_of: F,
    ids: Seq<u32>,
    held: spec_fn(u32) -> Seq<u32>,
    r: Result<Vec<MocaNode>>,
)
    requires
        forall|id: u32, net: Vec<u32>| #[trigger]
            call_ensures(net_of, (id,), net) ==> net@ == held(id),
        nodes_listed(net_of, ids, r),
    ensures
        r is Ok <==> forall|k: int|
            0 <= k < ids.len() ==> held(#[trigger] ids[k]).len() >= 5,
        r matches Ok(nodes) ==> node_views(nodes@) == Seq::new(
            ids.len(),
            |k: int|
                MocaNodeView {
                    node_id: ids[k],
                    mac: mac_text(held(ids[k])[0], held(ids[k])[1]),
                    moca_version: version_text(held(ids[k])[4] & 0xff),
                },
        ),
        r matches Err(e) ==> (e@ matches ErrorView::Decode { cmd, .. } && cmd == "0x16"@),
{
    let nets = choose|nets: Seq<Vec<u32>>|
        answers(net_of, ids, nets) && #[trigger] nodes_read(ids, nets, r);
    let all = word_views(nets);
    lemma_nodes_of(ids, all);
    assert forall|k: int| 0 <= k < nets.len() implies #[trigger] all[k] == held(ids[k]) by {
        assert(call_ensures(net_of, (ids[k],), nets[k]));
    }
    if r is Ok {
        assert forall|k: int| 0 <= k < ids.len() implies held(#[trigger] ids[k]).len() >= 5 by {
            assert(all[k].len() >= 5);
        }
    } else {
        let k = choose|k: int| 0 <= k < all.len() && (#[trigger] all[k]).len() < 5;
        assert(all[k] == held(ids[k]));
    }
}

} // verus!
