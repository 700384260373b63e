//! The rates of a network: what an adapter packs into its words comes out of them.

use crate::decode::{is_present, out_of_range, present_nodes};
use crate::error::ErrorView;
use crate::phy::{
    is_2x_payload, law_one_link_per_node, spec_rate_100mhz, spec_rate_50mhz, Layout, PhyLink,
};
use super::bits::{bit, law_nodes_are_bits, law_present_by_bit, nodes_set};
use vstd::prelude::*;

verus! {

/// What an adapter packs for one node: in 2.x two gaps of a byte and two counts of
/// 16 bits, in 1.x a gap of five bits and a count of eleven.
pub enum Slot {
    Wide { gap_nper: int, gap_vlper: int, bits_nper: int, bits_vlper: int },
    Narrow { gap: int, bits: int },
}

impl Slot {
    /// Whether every part has the room that it needs.
    pub open spec fn fits(self) -> bool {
        match self {
            Slot::Wide { gap_nper, gap_vlper, bits_nper, bits_vlper } => {
                &&& 0 <= gap_nper < 0x100
                &&& 0 <= gap_vlper < 0x100
                &&& 0 <= bits_nper < 0x1_0000
                &&& 0 <= bits_vlper < 0x1_0000
            },
            Slot::Narrow { gap, bits } => 0 <= gap < 0x20 && 0 <= bits < 0x800,
        }
    }

    /// The slot in units of 16 bits.
    pub open spec fn units(self) -> Seq<int> {
        match self {
            Slot::Wide { gap_nper, gap_vlper, bits_nper, bits_vlper } => seq![
                gap_nper * 0x100 + gap_vlper,
                bits_nper,
                bits_vlper,
            ],
            Slot::Narrow { gap, bits } => seq![gap * 0x800 + bits],
        }
    }

    /// The rate of a 100 MHz channel in Mbps, none without a gap.
    pub open spec fn rate_of(bits: int, gap: int) -> int {
        if gap == 0 {
            0
        } else {
            3900 * bits / ((512 + (gap + 10) * 2) * 46)
        }
    }

    /// The NPER rate where the payload is in exactly 2.0, or is not.
    pub open spec fn nper(self, exactly_20: bool) -> int {
        match self {
            Slot::Wide { gap_nper, gap_vlper, bits_nper, .. } => if gap_nper != 0 && gap_vlper == 0
                && exactly_20 {
                1200 * bits_nper / ((256 + gap_nper * 2 + 10) * 26)
            } else {
                Slot::rate_of(bits_nper, gap_nper)
            },
            Slot::Narrow { gap, bits } => Slot::rate_of(bits, gap),
        }
    }

    /// The VLPER rate.
    pub open spec fn vlper(self) -> int {
        match self {
            Slot::Wide { gap_vlper, bits_vlper, .. } => Slot::rate_of(bits_vlper, gap_vlper),
            Slot::Narrow { .. } => 0,
        }
    }
}

/// The units of slots that are packed back to back.
pub open spec fn packed(slots: Seq<Slot>) -> Seq<int>
    decreases slots.len(),
{
    if slots.len() == 0 {
        Seq::empty()
    } else {
        packed(slots.drop_last()) + slots.last().units()
    }
}

/// The words of an answer from word 10 on in units of 16 bits, the upper half of a
/// word first.
pub open spec fn unit_at(fmr: Seq<u32>, u: int) -> int {
    if u % 2 == 0 {
        fmr[10 + u / 2] as int / 0x1_0000
    } else {
        fmr[10 + u / 2] as int % 0x1_0000
    }
}

/// Whether unit `u` is among the words.
pub open spec fn has_unit(fmr: Seq<u32>, u: int) -> bool {
    10 + u / 2 < fmr.len()
}

/// The version of a node, 0 where none is known.
pub open spec fn version_in(node_vers: Seq<u8>, node: int) -> int {
    if node < node_vers.len() {
        node_vers[node] as int
    } else {
        0
    }
}

/// Whether the slot of `to` in the answer of `from` is a wide one: under a
/// coordinator of 2.0 or above a present node has one where `from` is in 2.0 or
/// 2.5, and an absent node where `from` is in 2.0 or above.
pub open spec fn packs_wide(
    node_bitmask: u32,
    node_vers: Seq<u8>,
    nc_moca_ver: u8,
    from: u32,
    to: int,
) -> bool {
    let own = version_in(node_vers, from as int);
    if bit(node_bitmask as nat, to as nat) {
        nc_moca_ver >= 0x20 && (own == 0x20 || own == 0x25)
    } else {
        own >= 0x20
    }
}

/// Whether slots have the widths that the versions ask for.
pub open spec fn right_widths(layout: Layout, from: u32, slots: Seq<Slot>) -> bool {
    &&& slots.len() == 16
    &&& forall|to: int|
        0 <= to < 16 ==> (#[trigger] slots[to]).fits() && (slots[to] is Wide <==> packs_wide(
            layout.node_bitmask,
            layout.node_vers,
            layout.nc_moca_ver,
            from,
            to,
        ))
}

/// Whether an answer holds the slots of the present nodes, each behind all the slots
/// before it.
pub open spec fn holds_slots(fmr: Seq<u32>, node_bitmask: u32, slots: Seq<Slot>) -> bool {
    forall|to: int, k: int|
        #![trigger slots[to].units()[k]]
        0 <= to < 16 && bit(node_bitmask as nat, to as nat) && 0 <= k < slots[to].units().len()
            ==> has_unit(fmr, packed(slots.take(to)).len() + k) && unit_at(
            fmr,
            packed(slots.take(to)).len() + k,
        ) == slots[to].units()[k]
}

/// Where a slot begins, in units.
proof fn lemma_slot_place(layout: Layout, from: u32, slots: Seq<Slot>, to: nat)
    requires
        right_widths(layout, from, slots),
        to <= 16,
    ensures
        layout.slot_start(from, to) == 10 + packed(slots.take(to as int)).len() as int / 2,
        packed(slots.take(to as int)).len() % 2 == to % 2,
    decreases to,
{
    if to > 0 {
        let prev = (to - 1) as nat;
        lemma_slot_place(layout, from, slots, prev);
        law_present_by_bit(layout.node_bitmask, prev as u32);
        assert(slots.take(to as int).drop_last() =~= slots.take(prev as int));
        assert(slots.take(to as int).last() == slots[prev as int]);
        assert(slots[prev as int].fits());
        lemma_wide(layout, from, prev);
    } else {
        assert(slots.take(0) =~= Seq::empty());
    }
}

proof fn lemma_wide(layout: Layout, from: u32, to: nat)
    requires
        to < 16,
    ensures
        layout.is_wide(from, to as u32) == packs_wide(
            layout.node_bitmask,
            layout.node_vers,
            layout.nc_moca_ver,
            from,
            to as int,
        ),
        is_present(layout.node_bitmask, to as u32) ==> is_2x_payload(
            layout.payload_version(from, to as u32),
        ) == layout.is_wide(from, to as u32),
        layout.payload_version(from, to as u32) == 0x20 ==> version_in(
            layout.node_vers,
            from as int,
        ) == 0x20 && layout.nc_moca_ver >= 0x20,
        layout.nc_moca_ver >= 0x20 ==> layout.payload_version(from, to as u32) as int == version_in(
            layout.node_vers,
            from as int,
        ),
{
    law_present_by_bit(layout.node_bitmask, to as u32);
}

proof fn lemma_halves(w: u32)
    ensures
        (w >> 24) & 0xff == w as int / 0x1_0000 / 0x100,
        (w >> 16) & 0xff == w as int / 0x1_0000 % 0x100,
        w & 0xffff == w as int % 0x1_0000,
        (w >> 16) & 0xffff == w as int / 0x1_0000,
        (w >> 8) & 0xff == w as int % 0x1_0000 / 0x100,
        w & 0xff == w as int % 0x1_0000 % 0x100,
        (w & 0xf800_0000) >> 27 == w as int / 0x1_0000 / 0x800,
        (w & 0x07ff_0000) >> 16 == w as int / 0x1_0000 % 0x800,
        (w & 0x0000_f800) >> 11 == w as int % 0x1_0000 / 0x800,
        w & 0x0000_07ff == w as int % 0x1_0000 % 0x800,
{
    assert((w >> 24) & 0xff == w / 0x1_0000 / 0x100 && (w >> 16) & 0xff == w / 0x1_0000 % 0x100 && w
        & 0xffff == w % 0x1_0000 && (w >> 16) & 0xffff == w / 0x1_0000 && (w >> 8) & 0xff == w
        % 0x1_0000 / 0x100 && w & 0xff == w % 0x1_0000 % 0x100) by (bit_vector);
    assert((w & 0xf800_0000) >> 27 == w / 0x1_0000 / 0x800 && (w & 0x07ff_0000) >> 16 == w
        / 0x1_0000 % 0x800 && (w & 0x0000_f800) >> 11 == w % 0x1_0000 / 0x800 && w & 0x0000_07ff
        == w % 0x1_0000 % 0x800) by (bit_vector);
}

proof fn lemma_rate_fits(bits: int, gap: int)
    requires
        0 <= bits < 0x1_0000,
        0 <= gap < 0x100,
    ensures
        0 <= 3900 * bits / ((512 + (gap + 10) * 2) * 46) <= u32::MAX,
        0 <= 1200 * bits / ((256 + gap * 2 + 10) * 26) <= u32::MAX,
{
    let a = (512 + (gap + 10) * 2) * 46;
    let b = (256 + gap * 2 + 10) * 26;
    assert(0 <= 3900 * bits / a <= 3900 * bits) by (nonlinear_arith)
        requires
            a >= 1,
            bits >= 0,
    ;
    assert(0 <= 1200 * bits / b <= 1200 * bits) by (nonlinear_arith)
        requires
            b >= 1,
            bits >= 0,
    ;
}

/// The link to one node that was packed.
proof fn lemma_link(layout: Layout, from: u32, slots: Seq<Slot>, fmr: Seq<u32>, to: nat)
    requires
        right_widths(layout, from, slots),
        holds_slots(fmr, layout.node_bitmask, slots),
        to < 16,
        bit(layout.node_bitmask as nat, to),
    ensures
        layout.link(from, to as u32, fmr) matches Ok(link) && link.nper_mbps as int
            == slots[to as int].nper(version_in(layout.node_vers, from as int) == 0x20)
            && link.vlper_mbps as int == slots[to as int].vlper(),
{
    let slot = slots[to as int];
    let at = packed(slots.take(to as int)).len() as int;
    let start = layout.slot_start(from, to);
    lemma_slot_place(layout, from, slots, to);
    lemma_wide(layout, from, to);
    law_present_by_bit(layout.node_bitmask, to as u32);
    assert(slot.fits());
    assert(slot.units().len() > 0);
    assert(slots[to as int].units()[0] == unit_at(fmr, at + 0));
    assert(has_unit(fmr, at) && unit_at(fmr, at) == slot.units()[0]);
    lemma_halves(fmr[start as int]);
    match slot {
        Slot::Wide { gap_nper, gap_vlper, bits_nper, bits_vlper } => {
            assert(has_unit(fmr, at + 1) && unit_at(fmr, at + 1) == slot.units()[1]);
            assert(has_unit(fmr, at + 2) && unit_at(fmr, at + 2) == slot.units()[2]);
            lemma_halves(fmr[start as int + 1]);
            lemma_rate_fits(bits_nper, gap_nper);
            lemma_rate_fits(bits_vlper, gap_vlper);
            let p = layout.params(from, to as u32, fmr)->Ok_0;
            assert(p.gap_nper == gap_nper);
            assert(p.gap_vlper == gap_vlper);
            assert(p.ofdmb_nper == bits_nper);
            assert(p.ofdmb_vlper == bits_vlper);
        },
        Slot::Narrow { gap, bits } => {
            lemma_rate_fits(bits, gap);
            let p = layout.params(from, to as u32, fmr)->Ok_0;
            assert(p.gap_nper == gap);
            assert(p.ofdmb_nper == bits);
        },
    }
}

proof fn lemma_links(layout: Layout, from: u32, slots: Seq<Slot>, fmr: Seq<u32>, upto: nat)
    requires
        right_widths(layout, from, slots),
        holds_slots(fmr, layout.node_bitmask, slots),
        upto <= 16,
    ensures
        layout.links(from, upto, fmr) is Ok,
        forall|j: int|
            0 <= j < layout.links(from, upto, fmr)->Ok_0.len() ==> {
                let link = #[trigger] layout.links(from, upto, fmr)->Ok_0[j];
                let slot = slots[link.to_node as int];
                &&& link.to_node < upto
                &&& link.nper_mbps as int == slot.nper(
                    version_in(layout.node_vers, from as int) == 0x20,
                )
                &&& link.vlper_mbps as int == slot.vlper()
            },
    decreases upto,
{
    if upto > 0 {
        let n = (upto - 1) as nat;
        lemma_links(layout, from, slots, fmr, n);
        law_present_by_bit(layout.node_bitmask, n as u32);
        if bit(layout.node_bitmask as nat, n) {
            lemma_link(layout, from, slots, fmr, n);
            let before = layout.links(from, n, fmr)->Ok_0;
            let all = layout.links(from, upto, fmr)->Ok_0;
            assert(all == before.push(layout.link(from, n as u32, fmr)->Ok_0));
            assert forall|j: int| 0 <= j < all.len() implies {
                let link = #[trigger] all[j];
                let slot = slots[link.to_node as int];
                &&& link.to_node < upto
                &&& link.nper_mbps as int == slot.nper(
                    version_in(layout.node_vers, from as int) == 0x20,
                )
                &&& link.vlper_mbps as int == slot.vlper()
            } by {
                if j < before.len() {
                    assert(all[j] == before[j]);
                }
            }
        }
    }
}

/// What an adapter packs comes out: where its answer holds one slot per node back to
/// back, the links are one to each present node, in ascending order, and each has the
/// rates of what was packed for its node.
pub proof fn law_packed_rates_come_out(
    layout: Layout,
    from: u32,
    slots: Seq<Slot>,
    fmr: Seq<u32>,
)
    requires
        right_widths(layout, from, slots),
        holds_slots(fmr, layout.node_bitmask, slots),
    ensures
        layout.links(from, 16, fmr) matches Ok(links) && {
            &&& links.len() == nodes_set(layout.node_bitmask, 16).len()
            &&& forall|j: int|
                0 <= j < links.len() ==> {
                    let link = #[trigger] links[j];
                    &&& link.from_node == from
                    &&& nodes_set(layout.node_bitmask, 16).contains(link.to_node as int)
                    &&& link.nper_mbps as int == slots[link.to_node as int].nper(
                        version_in(layout.node_vers, from as int) == 0x20,
                    )
                    &&& link.vlper_mbps as int == slots[link.to_node as int].vlper()
                }
            &&& forall|j: int, k: int|
                0 <= j < k < links.len() ==> (#[trigger] links[j]).to_node < (
                #[trigger] links[k]).to_node
        },
{
    lemma_links(layout, from, slots, fmr, 16);
    law_nodes_are_bits(layout.node_bitmask, 16);
    law_one_link_per_node(layout, from, 16, fmr);
    let links = layout.links(from, 16, fmr)->Ok_0;
    let ids = present_nodes(layout.node_bitmask, 16);
    assert forall|j: int| 0 <= j < links.len() implies {
        let link = #[trigger] links[j];
        &&& link.from_node == from
        &&& nodes_set(layout.node_bitmask, 16).contains(link.to_node as int)
    } by {
        assert(links[j].to_node == ids[j]);
    }
    assert forall|j: int, k: int| 0 <= j < k < links.len() implies (#[trigger] links[j]).to_node < (
    #[trigger] links[k]).to_node by {
        assert(links[j].to_node == ids[j]);
        assert(links[k].to_node == ids[k]);
    }
}

/// Where all nodes are in 2.x, a pair of slots takes three words: the slot of node
/// `2 * k` begins in the upper half of word `10 + 3 * k`, and that of node
/// `2 * k + 1` in the lower half of word `11 + 3 * k`.
pub proof fn law_wide_slots_do_not_overlap(layout: Layout, from: u32, k: nat)
    requires
        layout.nc_moca_ver >= 0x20,
        version_in(layout.node_vers, from as int) == 0x20 || version_in(
            layout.node_vers,
            from as int,
        ) == 0x25,
        k < 8,
    ensures
        layout.slot_start(from, 2 * k) == 10 + 3 * k,
        layout.slot_start(from, 2 * k + 1) == 11 + 3 * k,
    decreases k,
{
    if k > 0 {
        law_wide_slots_do_not_overlap(layout, from, (k - 1) as nat);
        lemma_wide(layout, from, (2 * k - 1) as nat);
        assert(layout.slot_start(from, 2 * k) == layout.slot_start(from, (2 * k - 1) as nat) + 2);
    }
    lemma_wide(layout, from, 2 * k);
    assert((2 * k) % 2 == 0);
    assert((2 * k + 1 - 1) as nat == 2 * k);
    assert(layout.slot_start(from, 2 * k + 1) == layout.slot_start(from, 2 * k) + 1);
}

/// The units before the slot of `to`: three for a wide slot, one for a narrow one.
pub open spec fn units_before(layout: Layout, from: u32, to: nat) -> nat
    decreases to,
{
    if to == 0 {
        0
    } else {
        units_before(layout, from, (to - 1) as nat) + if packs_wide(
            layout.node_bitmask,
            layout.node_vers,
            layout.nc_moca_ver,
            from,
            to - 1,
        ) {
            3nat
        } else {
            1
        }
    }
}

proof fn lemma_units_before(layout: Layout, from: u32, to: nat)
    requires
        to <= 16,
    ensures
        layout.slot_start(from, to) == 10 + units_before(layout, from, to) as int / 2,
        units_before(layout, from, to) % 2 == to % 2,
    decreases to,
{
    if to > 0 {
        lemma_units_before(layout, from, (to - 1) as nat);
        lemma_wide(layout, from, (to - 1) as nat);
    }
}

/// Whether an answer has all units of the slots of the present nodes below `upto`.
pub open spec fn long_enough(layout: Layout, from: u32, fmr: Seq<u32>, upto: nat) -> bool {
    forall|to: nat|
        to < upto && bit(layout.node_bitmask as nat, to) ==> has_unit(
            fmr,
            #[trigger] units_before(layout, from, to + 1) - 1,
        )
}

/// An answer decodes exactly where it has all units of the slots of the present
/// nodes; a shorter one is an error of the command that it answers.
pub proof fn law_short_rates_fail(layout: Layout, from: u32, fmr: Seq<u32>, upto: nat)
    requires
        upto <= 16,
    ensures
        layout.links(from, upto, fmr) is Ok <==> long_enough(layout, from, fmr, upto),
        layout.links(from, upto, fmr) matches Err(e) ==> (e matches ErrorView::Decode { cmd, .. }
            && cmd == "0x1D"@),
    decreases upto,
{
    if upto > 0 {
        let n = (upto - 1) as nat;
        law_short_rates_fail(layout, from, fmr, n);
        law_present_by_bit(layout.node_bitmask, n as u32);
        lemma_units_before(layout, from, n);
        lemma_wide(layout, from, n);
        let last = units_before(layout, from, n + 1) - 1;
        if long_enough(layout, from, fmr, upto) {
            assert forall|to: nat| to < n && bit(layout.node_bitmask as nat, to) implies has_unit(
                fmr,
                #[trigger] units_before(layout, from, to + 1) - 1,
            ) by {}
        }
        if bit(layout.node_bitmask as nat, n) {
            assert(layout.link(from, n as u32, fmr) is Ok <==> has_unit(fmr, last));
        }
        if layout.links(from, upto, fmr) is Ok {
            assert forall|to: nat| to < upto && bit(layout.node_bitmask as nat, to) implies has_unit(
                fmr,
                #[trigger] units_before(layout, from, to + 1) - 1,
            ) by {
                if to == n {
                    assert(has_unit(fmr, last));
                }
            }
        } else if long_enough(layout, from, fmr, upto) && bit(layout.node_bitmask as nat, n) {
            assert(has_unit(fmr, units_before(layout, from, n + 1) - 1));
        }
    }
}

/// An answer that ends before the slot of a present node does, and not before that of
/// an earlier one, is told with the first word of that slot that is missing.
pub proof fn law_short_rates_told(layout: Layout, from: u32, fmr: Seq<u32>, upto: nat, to: nat)
    requires
        to < upto <= 16,
        bit(layout.node_bitmask as nat, to),
        !has_unit(fmr, units_before(layout, from, to + 1) - 1),
        long_enough(layout, from, fmr, to),
    ensures
        ({
            let first = (10 + units_before(layout, from, to) / 2) as nat;
            layout.links(from, upto, fmr) == Err::<Seq<PhyLink>, ErrorView>(
                out_of_range(
                    fmr.len(),
                    if first >= fmr.len() {
                        first
                    } else {
                        first + 1
                    },
                    "0x1D"@,
                ),
            )
        }),
    decreases upto,
{
    let n = (upto - 1) as nat;
    if to < n {
        law_short_rates_told(layout, from, fmr, n, to);
    } else {
        law_short_rates_fail(layout, from, fmr, n);
        law_present_by_bit(layout.node_bitmask, n as u32);
        lemma_units_before(layout, from, n);
        lemma_wide(layout, from, n);
    }
}

/// The rate of a channel: the bits of a symbol in blocks of 3900 bits over the length of
/// a symbol with its gap, and for the narrow channel in blocks of 1200.
pub proof fn law_rate_formulas(bits: int, gap: int)
    ensures
        spec_rate_100mhz(bits, gap) == 3900 * bits / ((512 + (gap + 10) * 2) * 46),
        spec_rate_50mhz(bits, gap) == 1200 * bits / ((256 + gap * 2 + 10) * 26),
{
    assert(256 + (gap * 2 + 10) == 256 + gap * 2 + 10);
}

} // verus!
