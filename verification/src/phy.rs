//! PHY rates, computed from the bit-loading parameters that an adapter reports
//! for each pair of nodes.
//!
//! A node's FMR answer holds one slot per node id, packed back to back from
//! word 10 on. Slots come in pairs that share a word: the even slot of a pair
//! begins in the upper half of a word, the odd one in the lower half. How many
//! words a slot takes depends on the MoCA version its payload is written in.

use crate::decode::{get, is_present, present_nodes, word, MAX_NODES};
use crate::error::{ErrorView, Result};
use vstd::prelude::*;

verus! {

pub const LDPC_LEN_100MHZ: u32 = 3900;

pub const LDPC_LEN_50MHZ: u32 = 1200;

pub const FFT_LEN_100MHZ: u32 = 512;

pub const FFT_LEN_50MHZ: u32 = 256;

/// The rate in Mbps of a 100 MHz channel that carries `ofdmb` bits per symbol
/// with a cyclic prefix of `gap`.
pub open spec fn spec_rate_100mhz(ofdmb: int, gap: int) -> int {
    (LDPC_LEN_100MHZ * ofdmb) / ((FFT_LEN_100MHZ + (gap + 10) * 2) * 46)
}

/// The rate in Mbps of a 50 MHz channel.
pub open spec fn spec_rate_50mhz(ofdmb: int, gap: int) -> int {
    (LDPC_LEN_50MHZ * ofdmb) / ((FFT_LEN_50MHZ + (gap * 2 + 10)) * 26)
}

/// NPER/VLPER/GCD rate of 2.x (100 MHz) nodes.
pub fn rate_100mhz(ofdmb: u32, gap: u32) -> (r: u32)
    requires
        LDPC_LEN_100MHZ * ofdmb <= u32::MAX,
        (FFT_LEN_100MHZ + (gap + 10) * 2) * 46 <= u32::MAX,
    ensures
        r == spec_rate_100mhz(ofdmb as int, gap as int),
{
    (LDPC_LEN_100MHZ * ofdmb) / ((FFT_LEN_100MHZ + (gap + 10) * 2) * 46)
}

/// NPER/VLPER/GCD rate of 1.x (50 MHz) nodes.
pub fn rate_50mhz(ofdmb: u32, gap: u32) -> (r: u32)
    requires
        LDPC_LEN_50MHZ * ofdmb <= u32::MAX,
        (FFT_LEN_50MHZ + (gap * 2 + 10)) * 26 <= u32::MAX,
    ensures
        r == spec_rate_50mhz(ofdmb as int, gap as int),
{
    (LDPC_LEN_50MHZ * ofdmb) / ((FFT_LEN_50MHZ + (gap * 2 + 10)) * 26)
}

/// The rate from one node to another; from a node to itself, its GCD rate.
#[derive(Debug, Clone, Copy, PartialEq, Eq, Structural)]
pub struct PhyLink {
    pub from_node: u32,
    pub to_node: u32,
    pub nper_mbps: u32,
    pub vlper_mbps: u32,
}

/// The rates between all nodes of a network.
#[derive(Debug, Clone, PartialEq, Eq)]
pub struct PhyRates {
    /// Per node its GCD rate in Mbps.
    pub gcd_mbps: Vec<(u32, u32)>,
    pub links: Vec<PhyLink>,
    /// Per node its raw MoCA version byte, e.g. `0x25`.
    pub node_versions: Vec<(u32, u8)>,
}

/// [`PhyRates`] with their lists as sequences.
#[verifier::ext_equal]
pub struct PhyRatesView {
    pub gcd_mbps: Seq<(u32, u32)>,
    pub links: Seq<PhyLink>,
    pub node_versions: Seq<(u32, u8)>,
}

impl View for PhyRates {
    type V = PhyRatesView;

    open spec fn view(&self) -> PhyRatesView {
        PhyRatesView {
            gcd_mbps: self.gcd_mbps@,
            links: self.links@,
            node_versions: self.node_versions@,
        }
    }
}

impl Default for PhyRates {
    fn default() -> (r: PhyRates)
        ensures
            r.gcd_mbps@.len() == 0,
            r.links@.len() == 0,
            r.node_versions@.len() == 0,
    {
        PhyRates { gcd_mbps: Vec::new(), links: Vec::new(), node_versions: Vec::new() }
    }
}

/// The command that FMR words answer.
pub open spec fn fmr_cmd() -> Seq<char> {
    "0x1D"@
}

/// What decides the layout of a node's FMR answer: which nodes are present,
/// the MoCA version of each, and that of the network coordinator.
pub struct Layout {
    pub node_bitmask: u32,
    pub node_vers: Seq<u8>,
    pub nc_moca_ver: u8,
}

/// The parameters of one link.
pub struct LinkParams {
    pub gap_nper: u32,
    pub gap_vlper: u32,
    pub ofdmb_nper: u32,
    pub ofdmb_vlper: u32,
}

pub open spec fn lesser(a: u8, b: u8) -> u8 {
    if a <= b {
        a
    } else {
        b
    }
}

/// The payload of these versions has separate NPER and VLPER fields.
pub open spec fn is_2x_payload(ver: u8) -> bool {
    ver == 0x20 || ver == 0x25
}

impl Layout {
    /// The MoCA version of `node`; 0 where none is known.
    pub open spec fn version(self, node: u32) -> u8 {
        if node < self.node_vers.len() {
            self.node_vers[node as int]
        } else {
            0
        }
    }

    /// The version that the payload from `from` to `to` is written in: that of
    /// `from` under a 2.x coordinator, else the lowest of the three.
    pub open spec fn payload_version(self, from: u32, to: u32) -> u8 {
        if self.nc_moca_ver < 0x20 {
            lesser(lesser(self.version(from), self.nc_moca_ver), self.version(to))
        } else {
            self.version(from)
        }
    }

    /// Whether the slot of `to` has the room of a 2.x payload.
    pub open spec fn is_wide(self, from: u32, to: u32) -> bool {
        if is_present(self.node_bitmask, to) {
            is_2x_payload(self.payload_version(from, to))
        } else {
            self.version(from) >= 0x20
        }
    }

    /// The word that the slot of `to` begins in. A wide slot ends one word
    /// later than it begins, a narrow one in the same word; after an odd slot
    /// the next one begins in a new word.
    pub open spec fn slot_start(self, from: u32, to: nat) -> nat
        decreases to,
    {
        if to == 0 {
            10
        } else {
            let prev = (to - 1) as nat;
            self.slot_start(from, prev) + (if self.is_wide(from, prev as u32) {
                1nat
            } else {
                0
            }) + (if prev % 2 == 1 {
                1nat
            } else {
                0
            })
        }
    }

    /// The parameters of the link from `from` to `to`.
    pub open spec fn params(
        self,
        from: u32,
        to: u32,
        fmr: Seq<u32>,
    ) -> core::result::Result<LinkParams, ErrorView> {
        let start = self.slot_start(from, to as nat);
        if is_2x_payload(self.payload_version(from, to)) {
            params_2x(fmr, start, to % 2 == 0)
        } else {
            params_1x(fmr, start, to % 2 == 0)
        }
    }

    /// The link from `from` to `to`.
    pub open spec fn link(
        self,
        from: u32,
        to: u32,
        fmr: Seq<u32>,
    ) -> core::result::Result<PhyLink, ErrorView> {
        match self.params(from, to, fmr) {
            Ok(p) => Ok(
                PhyLink {
                    from_node: from,
                    to_node: to,
                    nper_mbps: nper_rate(p, self.payload_version(from, to)) as u32,
                    vlper_mbps: vlper_rate(p) as u32,
                },
            ),
            Err(e) => Err(e),
        }
    }

    /// The links from `from` to the present nodes below `upto`, in node order.
    pub open spec fn links(
        self,
        from: u32,
        upto: nat,
        fmr: Seq<u32>,
    ) -> core::result::Result<Seq<PhyLink>, ErrorView>
        decreases upto,
    {
        if upto == 0 {
            Ok(Seq::empty())
        } else {
            let to = (upto - 1) as u32;
            match self.links(from, (upto - 1) as nat, fmr) {
                Err(e) => Err(e),
                Ok(before) => if !is_present(self.node_bitmask, to) {
                    Ok(before)
                } else {
                    match self.link(from, to, fmr) {
                        Err(e) => Err(e),
                        Ok(link) => Ok(before.push(link)),
                    }
                },
            }
        }
    }
}

/// A 2.x slot: two gap bytes, then two 16-bit bit counts.
pub open spec fn params_2x(
    fmr: Seq<u32>,
    start: nat,
    upper: bool,
) -> core::result::Result<LinkParams, ErrorView> {
    match word(fmr, start, fmr_cmd()) {
        Err(e) => Err(e),
        Ok(w0) => match word(fmr, start + 1, fmr_cmd()) {
            Err(e) => Err(e),
            Ok(w1) => Ok(
                if upper {
                    LinkParams {
                        gap_nper: (w0 >> 24) & 0xff,
                        gap_vlper: (w0 >> 16) & 0xff,
                        ofdmb_nper: w0 & 0xffff,
                        ofdmb_vlper: (w1 >> 16) & 0xffff,
                    }
                } else {
                    LinkParams {
                        gap_nper: (w0 >> 8) & 0xff,
                        gap_vlper: w0 & 0xff,
                        ofdmb_nper: (w1 >> 16) & 0xffff,
                        ofdmb_vlper: w1 & 0xffff,
                    }
                },
            ),
        },
    }
}

/// A 1.x slot: five bits of gap, then eleven of bit count. It carries no VLPER.
pub open spec fn params_1x(
    fmr: Seq<u32>,
    start: nat,
    upper: bool,
) -> core::result::Result<LinkParams, ErrorView> {
    match word(fmr, start, fmr_cmd()) {
        Err(e) => Err(e),
        Ok(w0) => Ok(
            if upper {
                LinkParams {
                    gap_nper: (w0 & 0xf800_0000) >> 27,
                    gap_vlper: 0,
                    ofdmb_nper: (w0 & 0x07ff_0000) >> 16,
                    ofdmb_vlper: 0,
                }
            } else {
                LinkParams {
                    gap_nper: (w0 & 0x0000_f800) >> 11,
                    gap_vlper: 0,
                    ofdmb_nper: w0 & 0x0000_07ff,
                    ofdmb_vlper: 0,
                }
            },
        ),
    }
}

/// No gap means no rate; a rate is that of a 100 MHz channel, except that an
/// exact 2.0 payload without VLPER gap counts as a 50 MHz channel.
pub open spec fn nper_rate(p: LinkParams, payload_ver: u8) -> int {
    if p.gap_nper == 0 {
        0
    } else if p.gap_vlper == 0 && payload_ver == 0x20 {
        spec_rate_50mhz(p.ofdmb_nper as int, p.gap_nper as int)
    } else {
        spec_rate_100mhz(p.ofdmb_nper as int, p.gap_nper as int)
    }
}

/// No gap means no rate.
pub open spec fn vlper_rate(p: LinkParams) -> int {
    if p.gap_vlper == 0 {
        0
    } else {
        spec_rate_100mhz(p.ofdmb_vlper as int, p.gap_vlper as int)
    }
}

/// Gaps fit in a byte and bit counts in 16 bits.
pub open spec fn params_fit(p: LinkParams) -> bool {
    &&& p.gap_nper <= 0xff
    &&& p.gap_vlper <= 0xff
    &&& p.ofdmb_nper <= 0xffff
    &&& p.ofdmb_vlper <= 0xffff
}

/// Reads a 2.x slot that begins in word `read_idx`, in its upper half where
/// `alignment` holds, and says where the next slot begins.
fn unpack_2x(fmr: &[u32], read_idx: usize, alignment: bool) -> (r: Result<
    (u32, u32, u32, u32, usize),
>)
    requires
        read_idx + 2 <= usize::MAX,
    ensures
        match (r, params_2x(fmr@, read_idx as nat, alignment)) {
            (Ok((gap_nper, gap_vlper, ofdmb_nper, ofdmb_vlper, next)), Ok(p)) => {
                &&& p == (LinkParams { gap_nper, gap_vlper, ofdmb_nper, ofdmb_vlper })
                &&& params_fit(p)
                &&& next == read_idx + (if alignment {
                    1int
                } else {
                    2
                })
            },
            (Err(e), Err(expected)) => e@ == expected,
            _ => false,
        },
{
    let w0 = get(fmr, read_idx, "0x1D")?;
    let w1 = get(fmr, read_idx + 1, "0x1D")?;
    proof {
        assert((w0 >> 24) & 0xff <= 0xff && (w0 >> 16) & 0xff <= 0xff && w0 & 0xffff <= 0xffff && (
        w1 >> 16) & 0xffff <= 0xffff && (w0 >> 8) & 0xff <= 0xff && w0 & 0xff <= 0xff && w1 & 0xffff
            <= 0xffff) by (bit_vector);
    }
    if alignment {
        Ok(((w0 >> 24) & 0xff, (w0 >> 16) & 0xff, w0 & 0xffff, (w1 >> 16) & 0xffff, read_idx + 1))
    } else {
        Ok(((w0 >> 8) & 0xff, w0 & 0xff, (w1 >> 16) & 0xffff, w1 & 0xffff, read_idx + 2))
    }
}

/// Reads a 1.x slot, like [`unpack_2x`].
fn unpack_1x(fmr: &[u32], read_idx: usize, alignment: bool) -> (r: Result<
    (u32, u32, u32, u32, usize),
>)
    requires
        read_idx + 1 <= usize::MAX,
    ensures
        match (r, params_1x(fmr@, read_idx as nat, alignment)) {
            (Ok((gap_nper, gap_vlper, ofdmb_nper, ofdmb_vlper, next)), Ok(p)) => {
                &&& p == (LinkParams { gap_nper, gap_vlper, ofdmb_nper, ofdmb_vlper })
                &&& params_fit(p)
                &&& next == read_idx + (if alignment {
                    0int
                } else {
                    1
                })
            },
            (Err(e), Err(expected)) => e@ == expected,
            _ => false,
        },
{
    let w0 = get(fmr, read_idx, "0x1D")?;
    proof {
        assert((w0 & 0xf800_0000) >> 27 <= 0xff && (w0 & 0x07ff_0000) >> 16 <= 0xffff && (w0
            & 0x0000_f800) >> 11 <= 0xff && w0 & 0x0000_07ff <= 0xffff) by (bit_vector);
    }
    if alignment {
        Ok(((w0 & 0xf800_0000) >> 27, 0, (w0 & 0x07ff_0000) >> 16, 0, read_idx))
    } else {
        Ok(((w0 & 0x0000_f800) >> 11, 0, w0 & 0x0000_07ff, 0, read_idx + 1))
    }
}

/// Where the next slot begins behind the slot of an absent node.
fn skip_absent(read_idx: usize, alignment: bool, entry_node_moca_ver: u8) -> (r: usize)
    requires
        read_idx + 2 <= usize::MAX,
    ensures
        r == read_idx + (if entry_node_moca_ver >= 0x20 {
            1int
        } else {
            0
        }) + (if alignment {
            0int
        } else {
            1
        }),
{
    if entry_node_moca_ver >= 0x20 {
        if alignment {
            read_idx + 1
        } else {
            read_idx + 2
        }
    } else if alignment {
        read_idx
    } else {
        read_idx + 1
    }
}

fn version_at(node_vers: &[u8], node: u32) -> (r: u8)
    ensures
        r == (if node < node_vers@.len() {
            node_vers@[node as int]
        } else {
            0
        }),
{
    if (node as usize) < node_vers.len() {
        node_vers[node as usize]
    } else {
        0
    }
}

fn lesser_version(a: u8, b: u8) -> (r: u8)
    ensures
        r == lesser(a, b),
{
    if a <= b {
        a
    } else {
        b
    }
}

/// Decodes the FMR answer of `from_node` into one link per present node, the
/// link of `from_node` to itself included.
///
/// - `node_bitmask`: bit `i` set means that node `i` is present.
/// - `node_vers[i]`: the MoCA version byte of node `i`, 0 where it is unknown.
/// - `nc_moca_ver`: the version byte of the network coordinator.
pub fn decode_fmr(
    from_node: u32,
    node_bitmask: u32,
    node_vers: &[u8],
    nc_moca_ver: u8,
    fmr: &[u32],
) -> (r: Result<Vec<PhyLink>>)
    ensures
        crate::error::outcome_is(
            r,
            (Layout { node_bitmask, node_vers: node_vers@, nc_moca_ver }).links(
                from_node,
                MAX_NODES as nat,
                fmr@,
            ),
        ),
{
    let ghost layout = Layout { node_bitmask, node_vers: node_vers@, nc_moca_ver };
    let entry_node_moca_ver = version_at(node_vers, from_node);
    let entry_node_payload_ver = lesser_version(entry_node_moca_ver, nc_moca_ver);
    let mut read_idx: usize = 10;
    let mut alignment = true;
    let mut links: Vec<PhyLink> = Vec::new();
    let mut jd: u32 = 0;
    while jd < MAX_NODES
        invariant
            jd <= MAX_NODES,
            layout == (Layout { node_bitmask, node_vers: node_vers@, nc_moca_ver }),
            entry_node_moca_ver == layout.version(from_node),
            entry_node_payload_ver == lesser(entry_node_moca_ver, nc_moca_ver),
            alignment == (jd % 2 == 0),
            read_idx == layout.slot_start(from_node, jd as nat),
            read_idx <= 10 + 2 * jd,
            layout.links(from_node, jd as nat, fmr@) == Ok::<Seq<PhyLink>, ErrorView>(links@),
        decreases MAX_NODES - jd,
    {
        if node_bitmask & (1u32 << jd) == 0 {
            read_idx = skip_absent(read_idx, alignment, entry_node_moca_ver);
        } else {
            let fmr_payload_ver = if nc_moca_ver < 0x20 {
                lesser_version(entry_node_payload_ver, version_at(node_vers, jd))
            } else {
                entry_node_moca_ver
            };
            let unpacked = if fmr_payload_ver == 0x20 || fmr_payload_ver == 0x25 {
                unpack_2x(fmr, read_idx, alignment)
            } else {
                unpack_1x(fmr, read_idx, alignment)
            };
            match unpacked {
                Err(e) => {
                    proof {
                        lemma_links_fail(layout, from_node, (jd + 1) as nat, MAX_NODES as nat, fmr@);
                    }
                    return Err(e);
                },
                Ok((gap_nper, gap_vlper, ofdmb_nper, ofdmb_vlper, next)) => {
                    let vlper_mbps: u32 = if gap_vlper == 0 {
                        0
                    } else {
                        rate_100mhz(ofdmb_vlper, gap_vlper)
                    };
                    let nper_mbps: u32 = if gap_nper == 0 {
                        0
                    } else if gap_vlper == 0 && fmr_payload_ver == 0x20 {
                        rate_50mhz(ofdmb_nper, gap_nper)
                    } else {
                        rate_100mhz(ofdmb_nper, gap_nper)
                    };
                    links.push(PhyLink { from_node, to_node: jd, nper_mbps, vlper_mbps });
                    read_idx = next;
                },
            }
        }
        alignment = !alignment;
        jd = jd + 1;
    }
    Ok(links)
}

/// Once a link cannot be decoded, no longer list of links can.
proof fn lemma_links_fail(layout: Layout, from: u32, n: nat, upto: nat, fmr: Seq<u32>)
    requires
        n <= upto,
        layout.links(from, n, fmr) is Err,
    ensures
        layout.links(from, upto, fmr) == layout.links(from, n, fmr),
    decreases upto,
{
    if n < upto {
        lemma_links_fail(layout, from, n, (upto - 1) as nat, fmr);
    }
}

/// A node's answer gives one link to each present node, in the order of the
/// nodes.
pub proof fn law_one_link_per_node(layout: Layout, from: u32, upto: nat, fmr: Seq<u32>)
    requires
        upto <= 32,
    ensures
        layout.links(from, upto, fmr) matches Ok(links) ==> {
            let ids = present_nodes(layout.node_bitmask, upto);
            &&& links.len() == ids.len()
            &&& forall|j: int|
                0 <= j < links.len() ==> (#[trigger] links[j]).from_node == from && links[j].to_node
                    == ids[j]
        },
    decreases upto,
{
    if upto > 0 {
        law_one_link_per_node(layout, from, (upto - 1) as nat, fmr);
    }
}

} // verus!
