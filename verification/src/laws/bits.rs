//! Numbers in words, in bits and in digits.

use crate::decode::{is_present, nodes_below, present_nodes};
use crate::net::byte_of;
use crate::text::{decimal, hex_byte};
use vstd::arithmetic::power2::pow2;
use vstd::bits::lemma_u32_shr_is_div;
use vstd::prelude::*;

verus! {

/// Bit `i` of a number.
pub open spec fn bit(n: nat, i: nat) -> bool {
    (n / pow2(i)) % 2 == 1
}

/// A node is present where its bit is set in the bitmask.
pub proof fn law_present_by_bit(node_bitmask: u32, node: u32)
    requires
        node < 32,
    ensures
        is_present(node_bitmask, node) == bit(node_bitmask as nat, node as nat),
{
    lemma_u32_shr_is_div(node_bitmask, node);
    assert((node_bitmask & (1u32 << node) != 0) == ((node_bitmask >> node) % 2 == 1)) by (bit_vector)
        requires
            node < 32,
    ;
}

/// The nodes below `upto` whose bit is set.
pub open spec fn nodes_set(node_bitmask: u32, upto: int) -> Set<int> {
    Set::new(|i: int| 0 <= i < upto && bit(node_bitmask as nat, i as nat))
}

/// The number of nodes is the number of bits that are set, and the nodes listed are
/// those whose bit is set, in ascending order.
pub proof fn law_nodes_are_bits(node_bitmask: u32, upto: nat)
    requires
        upto <= 32,
    ensures
        nodes_set(node_bitmask, upto as int).finite(),
        nodes_below(node_bitmask, upto) == nodes_set(node_bitmask, upto as int).len(),
        present_nodes(node_bitmask, upto).len() == nodes_below(node_bitmask, upto),
        forall|k: int|
            0 <= k < present_nodes(node_bitmask, upto).len() ==> nodes_set(
                node_bitmask,
                upto as int,
            ).contains(#[trigger] present_nodes(node_bitmask, upto)[k] as int),
        forall|j: int, k: int|
            0 <= j < k < present_nodes(node_bitmask, upto).len() ==> #[trigger] present_nodes(
                node_bitmask,
                upto,
            )[j] < #[trigger] present_nodes(node_bitmask, upto)[k],
        forall|i: u32|
            nodes_set(node_bitmask, upto as int).contains(i as int) ==> #[trigger] present_nodes(
                node_bitmask,
                upto,
            ).contains(i),
    decreases upto,
{
    if upto == 0 {
        assert(nodes_set(node_bitmask, 0) =~= Set::empty());
    } else {
        let n = (upto - 1) as nat;
        law_nodes_are_bits(node_bitmask, n);
        law_present_by_bit(node_bitmask, n as u32);
        let before = nodes_set(node_bitmask, n as int);
        let listed = present_nodes(node_bitmask, n);
        let all = present_nodes(node_bitmask, upto);
        if is_present(node_bitmask, n as u32) {
            assert(nodes_set(node_bitmask, upto as int) =~= before.insert(n as int));
            assert(all == listed.push(n as u32));
        } else {
            assert(nodes_set(node_bitmask, upto as int) =~= before);
        }
        assert forall|i: u32| nodes_set(node_bitmask, upto as int).contains(i as int) implies
            #[trigger] all.contains(i) by {
            if i < n {
                assert(listed.contains(i));
                let k = choose|k: int| 0 <= k < listed.len() && listed[k] == i;
                assert(all[k] == i);
            } else {
                assert(all.last() == i);
            }
        }
    }
}

/// The bytes of a word make up the word, the first of them most significant.
pub proof fn law_bytes_make_the_word(w: u32)
    ensures
        w == byte_of(w, 0) * 0x100_0000 + byte_of(w, 1) * 0x1_0000 + byte_of(w, 2) * 0x100
            + byte_of(w, 3),
        byte_of(w, 0) as int == w as int / 0x100_0000,
        byte_of(w, 1) as int == w as int / 0x1_0000 % 0x100,
        byte_of(w, 2) as int == w as int / 0x100 % 0x100,
        byte_of(w, 3) as int == w as int % 0x100,
{
    assert(((w >> 24u32) & 0xff) as u8 == w / 0x100_0000 && ((w >> 16u32) & 0xff) as u8 == (w
        / 0x1_0000) % 0x100 && ((w >> 8u32) & 0xff) as u8 == (w / 0x100) % 0x100 && ((w >> 0u32)
        & 0xff) as u8 == w % 0x100) by (bit_vector);
    assert(w == ((w >> 24u32) & 0xff) as u8 * 0x100_0000 + ((w >> 16u32) & 0xff) as u8 * 0x1_0000
        + ((w >> 8u32) & 0xff) as u8 * 0x100 + ((w >> 0u32) & 0xff) as u8) by (bit_vector);
}

/// The number that decimal digits write.
pub open spec fn digits_read(s: Seq<char>) -> int
    decreases s.len(),
{
    if s.len() == 0 {
        0
    } else {
        digits_read(s.drop_last()) * 10 + (s.last() as int - '0' as int)
    }
}

/// A number in decimal notation is made of decimal digits, begins with a zero only
/// where it is zero, and reads back as the number.
pub proof fn law_decimal_reads_back(n: nat)
    ensures
        decimal(n).len() > 0,
        forall|i: int|
            0 <= i < decimal(n).len() ==> '0' as int <= (#[trigger] decimal(n)[i]) as int
                <= '9' as int,
        decimal(n)[0] == '0' ==> n == 0,
        digits_read(decimal(n)) == n,
    decreases n,
{
    if n < 10 {
        assert(decimal(n).drop_last() =~= Seq::empty());
        assert(digits_read(Seq::empty()) == 0);
    } else {
        law_decimal_reads_back(n / 10);
        assert(decimal(n).drop_last() =~= decimal(n / 10));
    }
}

/// Different numbers are written differently.
pub proof fn law_decimal_tells_apart(m: nat, n: nat)
    ensures
        decimal(m) == decimal(n) ==> m == n,
{
    law_decimal_reads_back(m);
    law_decimal_reads_back(n);
}

/// A byte is written as two digits out of `0123456789abcdef`, the upper half first.
pub proof fn law_hex_byte_by_digits(b: u8)
    ensures
        hex_byte(b) == seq![
            "0123456789abcdef"@[b as int / 16],
            "0123456789abcdef"@[b as int % 16],
        ],
{
    reveal_strlit("0123456789abcdef");
    assert(forall|n: int| 0 <= n < 16 ==> crate::text::hex_digit(n) == #[trigger] "0123456789abcdef"@[n]);
}

} // verus!
