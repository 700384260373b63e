//! What the registers of an adapter say: its status, the nodes of its network and the
//! rates between them.

use crate::decode::{
    bytes_of, first_missing, lemma_present_nodes, mac_text, node_of, nodes_of, out_of_range,
    present_nodes, printable, version_text, word, DeviceStatus, EthCounters,
};
use crate::error::ErrorView;
use crate::ms::{self, MsCmd};
use crate::net::{address_of, byte_of};
use crate::phy::{law_one_link_per_node, Layout, PhyLink, PhyRatesView};
use crate::reads::{
    fmr_body, law_rates_complete, layout_of, links_read, net_complaint, node_body, nodes_next,
    phy_next, self_rates, status_next, versions, NetView, NextView, PhyView,
};
use crate::text::{decimal, hex_byte};
use super::bits::{
    bit, law_bytes_make_the_word, law_hex_byte_by_digits, law_nodes_are_bits, nodes_set,
};
use vstd::arithmetic::power2::pow2;
use vstd::prelude::*;

verus! {

/// The two digits that write octet `octet`.
pub open spec fn two_digits(octet: int) -> (char, char) {
    ("0123456789abcdef"@[octet / 16], "0123456789abcdef"@[octet % 16])
}

/// A MAC address reads back: it is written as six octets of two hexadecimal digits
/// with colons between them, and the octets in order, the first most significant,
/// are the number whose upper four bytes are `hi` and whose lower two are the upper
/// two of `lo`.
pub proof fn law_mac_reads_back(hi: u32, lo: u32)
    ensures
        ({
            let n = hi as int * 0x1_0000 + lo as int / 0x1_0000;
            let s = mac_text(hi, lo);
            &&& s.len() == 17
            &&& s[2] == ':' && s[5] == ':' && s[8] == ':' && s[11] == ':' && s[14] == ':'
            &&& (s[0], s[1]) == two_digits(n / 0x100_0000_0000)
            &&& (s[3], s[4]) == two_digits(n / 0x1_0000_0000 % 0x100)
            &&& (s[6], s[7]) == two_digits(n / 0x100_0000 % 0x100)
            &&& (s[9], s[10]) == two_digits(n / 0x1_0000 % 0x100)
            &&& (s[12], s[13]) == two_digits(n / 0x100 % 0x100)
            &&& (s[15], s[16]) == two_digits(n % 0x100)
        }),
{
    let s = mac_text(hi, lo);
    lemma_mac_octets(hi, lo);
    lemma_mac_chars(hi, lo);
    law_hex_byte_by_digits(byte_of(hi, 0));
    law_hex_byte_by_digits(byte_of(hi, 1));
    law_hex_byte_by_digits(byte_of(hi, 2));
    law_hex_byte_by_digits(byte_of(hi, 3));
    law_hex_byte_by_digits(byte_of(lo, 0));
    law_hex_byte_by_digits(byte_of(lo, 1));
}

proof fn lemma_mac_octets(hi: u32, lo: u32)
    ensures
        ({
            let n = hi as int * 0x1_0000 + lo as int / 0x1_0000;
            &&& byte_of(hi, 0) as int == n / 0x100_0000_0000
            &&& byte_of(hi, 1) as int == n / 0x1_0000_0000 % 0x100
            &&& byte_of(hi, 2) as int == n / 0x100_0000 % 0x100
            &&& byte_of(hi, 3) as int == n / 0x1_0000 % 0x100
            &&& byte_of(lo, 0) as int == n / 0x100 % 0x100
            &&& byte_of(lo, 1) as int == n % 0x100
        }),
{
    law_bytes_make_the_word(hi);
    law_bytes_make_the_word(lo);
    let h = hi as int;
    let l = lo as int / 0x1_0000;
    let n = h * 0x1_0000 + l;
    assert(n / 0x1_0000 == h);
    lemma_div_twice(n, 0x1_0000, 0x100_0000);
    lemma_div_twice(n, 0x1_0000, 0x1_0000);
    lemma_div_twice(n, 0x1_0000, 0x100);
    assert(n / 0x100 == h * 0x100 + l / 0x100);
    assert(n / 0x100 % 0x100 == l / 0x100 % 0x100);
    lemma_div_twice(lo as int, 0x1_0000, 0x100);
    assert(n % 0x100 == l % 0x100);
}

proof fn lemma_div_twice(n: int, a: int, b: int)
    requires
        n >= 0,
        a > 0,
        b > 0,
    ensures
        n / a / b == n / (a * b),
{
    vstd::arithmetic::div_mod::lemma_div_denominator(n, a, b);
}

proof fn lemma_mac_chars(hi: u32, lo: u32)
    ensures
        ({
            let s = mac_text(hi, lo);
            &&& s.len() == 17
            &&& s[2] == ':' && s[5] == ':' && s[8] == ':' && s[11] == ':' && s[14] == ':'
            &&& seq![s[0], s[1]] == hex_byte(byte_of(hi, 0))
            &&& seq![s[3], s[4]] == hex_byte(byte_of(hi, 1))
            &&& seq![s[6], s[7]] == hex_byte(byte_of(hi, 2))
            &&& seq![s[9], s[10]] == hex_byte(byte_of(hi, 3))
            &&& seq![s[12], s[13]] == hex_byte(byte_of(lo, 0))
            &&& seq![s[15], s[16]] == hex_byte(byte_of(lo, 1))
        }),
{
    reveal_strlit(":");
    let s = mac_text(hi, lo);
    let six = seq![
        hex_byte(byte_of(hi, 0)),
        hex_byte(byte_of(hi, 1)),
        hex_byte(byte_of(hi, 2)),
        hex_byte(byte_of(hi, 3)),
        hex_byte(byte_of(lo, 0)),
        hex_byte(byte_of(lo, 1)),
    ];
    assert(s =~= seq![
        six[0][0],
        six[0][1],
        ':',
        six[1][0],
        six[1][1],
        ':',
        six[2][0],
        six[2][1],
        ':',
        six[3][0],
        six[3][1],
        ':',
        six[4][0],
        six[4][1],
        ':',
        six[5][0],
        six[5][1],
    ]);
    assert(seq![s[0], s[1]] =~= six[0]);
    assert(seq![s[3], s[4]] =~= six[1]);
    assert(seq![s[6], s[7]] =~= six[2]);
    assert(seq![s[9], s[10]] =~= six[3]);
    assert(seq![s[12], s[13]] =~= six[4]);
    assert(seq![s[15], s[16]] =~= six[5]);
}

/// A version is written as its two digits of four bits with a point between them.
pub proof fn law_version_by_digits(raw: u32)
    ensures
        version_text(raw) == decimal((raw as nat / 16) % 16) + "."@ + decimal(raw as nat % 16),
        version_text(raw & 0xff) == version_text(raw),
{
    assert((raw >> 4) & 0xf == (raw / 16) % 16 && raw & 0xf == raw % 16 && ((raw & 0xff) >> 4) & 0xf
        == (raw / 16) % 16 && (raw & 0xff) & 0xf == raw % 16) by (bit_vector);
}

/// The bytes of words are four for each, and make up the word.
pub proof fn law_bytes_of_words(words: Seq<u32>)
    ensures
        bytes_of(words).len() == 4 * words.len(),
        forall|i: int|
            0 <= i < words.len() ==> (#[trigger] words[i]) as int == bytes_of(words)[4 * i]
                * 0x100_0000 + bytes_of(words)[4 * i + 1] * 0x1_0000 + bytes_of(words)[4 * i + 2]
                * 0x100 + bytes_of(words)[4 * i + 3],
{
    assert forall|i: int| 0 <= i < words.len() implies (#[trigger] words[i]) as int == bytes_of(
        words,
    )[4 * i] * 0x100_0000 + bytes_of(words)[4 * i + 1] * 0x1_0000 + bytes_of(words)[4 * i + 2]
        * 0x100 + bytes_of(words)[4 * i + 3] by {
        law_bytes_make_the_word(words[i]);
        assert((4 * i) / 4 == i && (4 * i + 1) / 4 == i && (4 * i + 2) / 4 == i && (4 * i + 3) / 4
            == i);
        assert((4 * i) % 4 == 0 && (4 * i + 1) % 4 == 1 && (4 * i + 2) % 4 == 2 && (4 * i + 3) % 4
            == 3);
    }
}

/// The text that bytes hold ends before the first zero; every byte before it that
/// shows on paper stands in it as its character, in order, and no other does.
pub proof fn law_text_in_bytes(b: u8, rest: Seq<u8>)
    ensures
        printable(Seq::empty()) == Seq::<char>::empty(),
        printable(seq![0u8] + rest) == Seq::<char>::empty(),
        '!' as int <= b as int <= '~' as int ==> printable(seq![b] + rest) == seq![b as char]
            + printable(rest),
        b != 0 && !('!' as int <= b as int <= '~' as int) ==> printable(seq![b] + rest)
            == printable(rest),
{
    assert((seq![b] + rest).skip(1) =~= rest);
    assert((seq![b] + rest)[0] == b);
    assert((seq![0u8] + rest)[0] == 0);
}

/// What a status says of its adapter, register by register. It is there exactly
/// where the registers have the words for it, and the first that has not is named by
/// its command.
pub proof fn law_status_by_register(
    local: Seq<u32>,
    mac: Seq<u32>,
    frame: Seq<u32>,
    ip: Seq<u32>,
    lof: Seq<u32>,
    eth: Seq<u32>,
)
    ensures
        DeviceStatus::of(local, mac, frame, ip, lof, eth) is Ok <==> local.len() >= 23 && mac.len()
            >= 2 && ip.len() >= 1 && lof.len() >= 1 && frame.len() >= 104,
        DeviceStatus::of(local, mac, frame, ip, lof, eth) matches Ok(s) ==> {
            &&& s.soc_version == printable(bytes_of(seq![local[21], local[22]]))
            &&& s.moca_version == decimal((local[11] as nat / 16) % 16) + "."@ + decimal(
                local[11] as nat % 16,
            )
            &&& s.node_bitmask == local[12]
            &&& s.node_count == nodes_set(local[12], 32).len()
            &&& s.my_node_id == local[0]
            &&& s.link_up <==> local[5] == 1
            &&& s.mac == mac_text(mac[0], mac[1])
            &&& s.ip.a as int * 0x100_0000 + s.ip.b as int * 0x1_0000 + s.ip.c as int * 0x100
                + s.ip.d as int == ip[0]
            &&& s.beacon_channel_mhz == lof[0]
            &&& s.eth.tx_good as int == frame[12] * 0x1_0000_0000 + frame[13]
            &&& s.eth.tx_bad as int == frame[30] * 0x1_0000_0000 + frame[31]
            &&& s.eth.tx_dropped as int == frame[48] * 0x1_0000_0000 + frame[49]
            &&& s.eth.rx_good as int == frame[66] * 0x1_0000_0000 + frame[67]
            &&& s.eth.rx_bad as int == frame[84] * 0x1_0000_0000 + frame[85]
            &&& s.eth.rx_dropped as int == frame[102] * 0x1_0000_0000 + frame[103]
        },
        DeviceStatus::of(local, mac, frame, ip, lof, eth) matches Err(e) ==> (e matches
            ErrorView::Decode { cmd, .. } && cmd == if local.len() < 23 {
            "0x15"@
        } else if mac.len() < 2 {
            "0x103"@
        } else if ip.len() < 1 {
            "0x20b"@
        } else if lof.len() < 1 {
            "0x1003"@
        } else {
            "0x14"@
        }),
{
    lemma_status_missing(local, mac, frame, ip, lof);
    if let Ok(s) = DeviceStatus::of(local, mac, frame, ip, lof, eth) {
        law_nodes_are_bits(local[12], 32);
        lemma_present_nodes(local[12], 32);
        law_version_by_digits(local[11]);
        lemma_address(ip[0]);
    }
}

proof fn lemma_address(w: u32)
    ensures
        ({
            let ip = address_of(w as nat);
            ip.a as int * 0x100_0000 + ip.b as int * 0x1_0000 + ip.c as int * 0x100 + ip.d as int
                == w
        }),
{
    let n = w as int;
    lemma_div_twice(n, 0x100, 0x100);
    lemma_div_twice(n, 0x1_0000, 0x100);
    assert(n == n / 0x100 * 0x100 + n % 0x100);
    assert(n / 0x100 == n / 0x1_0000 * 0x100 + n / 0x100 % 0x100);
    assert(n / 0x1_0000 == n / 0x100_0000 * 0x100 + n / 0x1_0000 % 0x100);
    assert(n / 0x100_0000 < 0x100);
}

proof fn lemma_first_missing(words: Seq<u32>, idxs: Seq<nat>, cmd: Seq<char>)
    ensures
        first_missing(words, idxs, cmd) is None <==> forall|i: int|
            0 <= i < idxs.len() ==> (#[trigger] idxs[i]) < words.len(),
        first_missing(words, idxs, cmd) matches Some(e) ==> (e matches ErrorView::Decode {
            cmd: named,
            ..
        } && named == cmd),
    decreases idxs.len(),
{
    if idxs.len() > 0 {
        let rest = idxs.skip(1);
        lemma_first_missing(words, rest, cmd);
        if idxs[0] < words.len() {
            if forall|i: int| 0 <= i < idxs.len() ==> (#[trigger] idxs[i]) < words.len() {
                assert forall|i: int| 0 <= i < rest.len() implies (#[trigger] rest[i])
                    < words.len() by {
                    assert(idxs[i + 1] < words.len());
                }
            }
            if first_missing(words, idxs, cmd) is None {
                assert forall|i: int| 0 <= i < idxs.len() implies (#[trigger] idxs[i])
                    < words.len() by {
                    if i > 0 {
                        assert(rest[i - 1] < words.len());
                    }
                }
            }
        }
    }
}

proof fn lemma_status_missing(
    local: Seq<u32>,
    mac: Seq<u32>,
    frame: Seq<u32>,
    ip: Seq<u32>,
    lof: Seq<u32>,
)
    ensures
        DeviceStatus::missing(local, mac, frame, ip, lof) is None <==> local.len() >= 23
            && mac.len() >= 2 && ip.len() >= 1 && lof.len() >= 1 && frame.len() >= 104,
        DeviceStatus::missing(local, mac, frame, ip, lof) matches Some(e) ==> (e matches
            ErrorView::Decode { cmd, .. } && cmd == if local.len() < 23 {
            "0x15"@
        } else if mac.len() < 2 {
            "0x103"@
        } else if ip.len() < 1 {
            "0x20b"@
        } else if lof.len() < 1 {
            "0x1003"@
        } else {
            "0x14"@
        }),
{
    let of_local: Seq<nat> = seq![11, 12, 21, 22, 0, 5];
    let of_mac: Seq<nat> = seq![0, 1];
    let of_one: Seq<nat> = seq![0];
    let of_frame = EthCounters::word_list();
    lemma_first_missing(local, of_local, "0x15"@);
    lemma_first_missing(mac, of_mac, "0x103"@);
    lemma_first_missing(ip, of_one, "0x20b"@);
    lemma_first_missing(lof, of_one, "0x1003"@);
    lemma_first_missing(frame, of_frame, "0x14"@);
    assert(of_local[3] == 22);
    assert(of_mac[1] == 1);
    assert(of_one[0] == 0);
    assert(of_frame[11] == 103);
    assert(forall|i: int| 0 <= i < of_local.len() ==> (#[trigger] of_local[i]) <= 22);
    assert(forall|i: int| 0 <= i < of_frame.len() ==> (#[trigger] of_frame[i]) <= 103);
    assert(forall|i: int| 0 <= i < of_mac.len() ==> (#[trigger] of_mac[i]) <= 1);
    assert(forall|i: int| 0 <= i < of_one.len() ==> (#[trigger] of_one[i]) <= 0);
}

/// What a status that cannot be told fails with: the first word that is missing, the
/// local information before the hardware address, the address, the channel and the
/// frame counters, each of which is read as two words.
pub proof fn law_status_complaint(
    local: Seq<u32>,
    mac: Seq<u32>,
    frame: Seq<u32>,
    ip: Seq<u32>,
    lof: Seq<u32>,
    eth: Seq<u32>,
)
    ensures
        DeviceStatus::of(local, mac, frame, ip, lof, eth) matches Err(e) ==> {
            let n = frame.len();
            e == if local.len() <= 11 {
                out_of_range(local.len(), 11, "0x15"@)
            } else if local.len() <= 12 {
                out_of_range(local.len(), 12, "0x15"@)
            } else if local.len() <= 21 {
                out_of_range(local.len(), 21, "0x15"@)
            } else if local.len() <= 22 {
                out_of_range(local.len(), 22, "0x15"@)
            } else if mac.len() <= 1 {
                out_of_range(mac.len(), mac.len(), "0x103"@)
            } else if ip.len() == 0 {
                out_of_range(0, 0, "0x20b"@)
            } else if lof.len() == 0 {
                out_of_range(0, 0, "0x1003"@)
            } else if n <= 12 {
                out_of_range(n, 12, "0x14"@)
            } else {
                // The counters begin at words 12, 30 and so on.
                let at = (n - 12) / 18 * 18 + 12;
                if n <= at + 1 {
                    out_of_range(n, n, "0x14"@)
                } else {
                    out_of_range(n, (at + 18) as nat, "0x14"@)
                }
            }
        },
{
    lemma_status_missing(local, mac, frame, ip, lof);
    if local.len() <= 22 {
        lemma_local_missing(local);
    } else if mac.len() <= 1 {
        lemma_first_at(mac, seq![0, 1], "0x103"@, mac.len() as int);
        lemma_none_missing(local);
    } else {
        lemma_none_missing(local);
        lemma_first_missing(mac, seq![0, 1], "0x103"@);
        if ip.len() == 0 {
            lemma_first_at(ip, seq![0], "0x20b"@, 0);
        } else if lof.len() == 0 {
            lemma_first_missing(ip, seq![0], "0x20b"@);
            lemma_first_at(lof, seq![0], "0x1003"@, 0);
        } else if frame.len() <= 103 {
            lemma_first_missing(ip, seq![0], "0x20b"@);
            lemma_first_missing(lof, seq![0], "0x1003"@);
            lemma_frame_missing(frame);
        }
    }
}

proof fn lemma_none_missing(local: Seq<u32>)
    requires
        local.len() >= 23,
    ensures
        first_missing(local, seq![11, 12, 21, 22, 0, 5], "0x15"@) is None,
{
    lemma_first_missing(local, seq![11, 12, 21, 22, 0, 5], "0x15"@);
}

proof fn lemma_local_missing(local: Seq<u32>)
    requires
        local.len() <= 22,
    ensures
        first_missing(local, seq![11, 12, 21, 22, 0, 5], "0x15"@) == Some(
            out_of_range(
                local.len(),
                if local.len() <= 11 {
                    11
                } else if local.len() <= 12 {
                    12
                } else if local.len() <= 21 {
                    21
                } else {
                    22
                },
                "0x15"@,
            ),
        ),
{
    let idxs: Seq<nat> = seq![11, 12, 21, 22, 0, 5];
    let i: int = if local.len() <= 11 {
        0
    } else if local.len() <= 12 {
        1
    } else if local.len() <= 21 {
        2
    } else {
        3
    };
    lemma_first_at(local, idxs, "0x15"@, i);
}

proof fn lemma_frame_missing(frame: Seq<u32>)
    requires
        frame.len() <= 103,
    ensures
        first_missing(frame, EthCounters::word_list(), "0x14"@) == Some(
            out_of_range(
                frame.len(),
                if frame.len() <= 12 {
                    12
                } else if frame.len() <= (frame.len() - 12) / 18 * 18 + 13 {
                    frame.len()
                } else {
                    ((frame.len() - 12) / 18 * 18 + 30) as nat
                },
                "0x14"@,
            ),
        ),
{
    let n = frame.len() as int;
    let j = (n - 12) / 18;
    let i: int = if n <= 12 {
        0
    } else if n <= j * 18 + 12 {
        2 * j
    } else if n <= j * 18 + 13 {
        2 * j + 1
    } else {
        2 * j + 2
    };
    let idxs = EthCounters::word_list();
    assert(j == 0 || j == 1 || j == 2 || j == 3 || j == 4 || j == 5 || n <= 12);
    lemma_first_at(frame, idxs, "0x14"@, i);
}

/// The first word that is missing is what is told.
proof fn lemma_first_at(words: Seq<u32>, idxs: Seq<nat>, cmd: Seq<char>, i: int)
    requires
        0 <= i < idxs.len(),
        idxs[i] >= words.len(),
        forall|k: int| 0 <= k < i ==> (#[trigger] idxs[k]) < words.len(),
    ensures
        first_missing(words, idxs, cmd) == Some(out_of_range(words.len(), idxs[i], cmd)),
    decreases i,
{
    if i > 0 {
        let rest = idxs.skip(1);
        assert(idxs[0] < words.len());
        assert forall|k: int| 0 <= k < i - 1 implies (#[trigger] rest[k]) < words.len() by {
            assert(idxs[k + 1] < words.len());
        }
        lemma_first_at(words, rest, cmd, i - 1);
    }
}

/// Ethernet ports are described by three words each, and all but port 0 are told: a
/// port's link and duplex by whether their word is zero, its speed by its index.
pub proof fn law_ports_by_triples(
    local: Seq<u32>,
    mac: Seq<u32>,
    frame: Seq<u32>,
    ip: Seq<u32>,
    lof: Seq<u32>,
    eth: Seq<u32>,
)
    requires
        eth.len() <= u32::MAX,
    ensures
        DeviceStatus::of(local, mac, frame, ip, lof, eth) matches Ok(s) ==> {
            &&& eth.len() < 6 ==> s.eth_ports.len() == 0
            &&& eth.len() >= 6 ==> s.eth_ports.len() == eth.len() / 3 - 1
            &&& forall|k: int|
                0 <= k < s.eth_ports.len() ==> {
                    let port = #[trigger] s.eth_ports[k];
                    let at = 3 * (k + 1);
                    &&& port.port == k + 1
                    &&& port.link_up <==> eth[at] != 0
                    &&& port.duplex_full <==> eth[at + 2] != 0
                    &&& port.speed_mbps == if eth[at + 1] == 0 {
                        10int
                    } else if eth[at + 1] == 1 {
                        100
                    } else if eth[at + 1] == 2 {
                        1000
                    } else if eth[at + 1] == 4 {
                        2500
                    } else {
                        0
                    }
                }
        },
{
}

/// The registers of a status: in which order they are read, and with which bodies.
/// What they answered in that order is what the status is made of.
pub proof fn law_status_registers(answers: Seq<Seq<u32>>)
    ensures
        answers.len() == 6 ==> status_next(answers) == NextView::Done(
            DeviceStatus::of(
                answers[0],
                answers[1],
                answers[2],
                answers[3],
                answers[4],
                answers[5],
            ),
        ),
        answers.len() < 6 ==> (status_next(answers) matches NextView::Read { cmd, body } && {
            let k = answers.len();
            &&& cmd.spec_path() == if k == 0 {
                "/ms/0/0x15"@
            } else if k == 1 {
                "/ms/1/0x103/GET"@
            } else if k == 2 {
                "/ms/0/0x14"@
            } else if k == 3 {
                "/ms/1/0x20b/GET"@
            } else if k == 4 {
                "/ms/0/0x1003/GET"@
            } else {
                "/ms/1/0x307/GET"@
            }
            &&& body == if k == 0 {
                "{\"data\":[]}"@
            } else {
                "{\"data\":[0]}"@
            }
        }),
{
    lemma_paths();
}

pub proof fn lemma_paths()
    ensures
        ms::local_info().spec_path() == "/ms/0/0x15"@,
        ms::net_info().spec_path() == "/ms/0/0x16"@,
        ms::mac_info().spec_path() == "/ms/1/0x103/GET"@,
        ms::frame_info().spec_path() == "/ms/0/0x14"@,
        ms::eth_info().spec_path() == "/ms/1/0x307/GET"@,
        ms::ip_addr().spec_path() == "/ms/1/0x20b/GET"@,
        ms::lof().spec_path() == "/ms/0/0x1003/GET"@,
        ms::fmr_info().spec_path() == "/ms/0/0x1D"@,
        ms::reboot().spec_path() == "/ms/1/0xb00"@,
{
    reveal_strlit("/ms/");
    reveal_strlit("/");
    reveal_strlit("/GET");
    reveal_strlit("0x15");
    reveal_strlit("0x16");
    reveal_strlit("0x103");
    reveal_strlit("0x14");
    reveal_strlit("0x307");
    reveal_strlit("0x20b");
    reveal_strlit("0x1003");
    reveal_strlit("0x1D");
    reveal_strlit("0xb00");
    reveal_strlit("/ms/0/0x15");
    reveal_strlit("/ms/0/0x16");
    reveal_strlit("/ms/1/0x103/GET");
    reveal_strlit("/ms/0/0x14");
    reveal_strlit("/ms/1/0x307/GET");
    reveal_strlit("/ms/1/0x20b/GET");
    reveal_strlit("/ms/0/0x1003/GET");
    reveal_strlit("/ms/0/0x1D");
    reveal_strlit("/ms/1/0xb00");
    assert(decimal(0) =~= seq!['0']);
    assert(decimal(1) =~= seq!['1']);
    assert(ms::local_info().spec_path() =~= "/ms/0/0x15"@);
    assert(ms::net_info().spec_path() =~= "/ms/0/0x16"@);
    assert(ms::mac_info().spec_path() =~= "/ms/1/0x103/GET"@);
    assert(ms::frame_info().spec_path() =~= "/ms/0/0x14"@);
    assert(ms::eth_info().spec_path() =~= "/ms/1/0x307/GET"@);
    assert(ms::ip_addr().spec_path() =~= "/ms/1/0x20b/GET"@);
    assert(ms::lof().spec_path() =~= "/ms/0/0x1003/GET"@);
    assert(ms::fmr_info().spec_path() =~= "/ms/0/0x1D"@);
    assert(ms::reboot().spec_path() =~= "/ms/1/0xb00"@);
}

/// The path of a command names its space and its code, and ends in `/GET` where the
/// command says so.
pub proof fn law_path_by_parts(cmd: MsCmd)
    ensures
        cmd.spec_path() == "/ms/"@ + decimal(cmd.space as nat) + "/"@ + cmd.code@ + if cmd.get_suffix {
            "/GET"@
        } else {
            Seq::empty()
        },
        ms::reboot().spec_path() == "/ms/1/0xb00"@,
{
    lemma_paths();
    assert(cmd.spec_path() =~= "/ms/"@ + decimal(cmd.space as nat) + "/"@ + cmd.code@
        + if cmd.get_suffix {
        "/GET"@
    } else {
        Seq::empty()
    });
}

/// The numbers that bodies carry: a node by its number, or by its bit and with a
/// version behind it.
pub proof fn law_bodies_by_number(node: u32, version: u32)
    requires
        node < 32,
    ensures
        node_body(node) == "{\"data\":["@ + decimal(node as nat) + "]}"@,
        fmr_body(node, version) == "{\"data\":["@ + decimal(pow2(node as nat)) + ","@ + decimal(
            version as nat,
        ) + "]}"@,
{
    vstd::bits::lemma_u32_pow2_no_overflow(node as nat);
    vstd::bits::lemma_u32_shl_is_mul(1u32, node);
}

/// The nodes of a network are asked for one after the other, in ascending order, each
/// with its own number; then they are told as the answers say.
pub proof fn law_nodes_asked_in_order(local: Seq<u32>, nets: Seq<Seq<u32>>)
    requires
        local.len() > 12,
    ensures
        ({
            let ids = present_nodes(local[12], 16);
            let next = nodes_next(NetView { local: Some(local), nets });
            &&& nets.len() < ids.len() ==> (next matches NextView::Read { cmd, body }
                && cmd.spec_path() == "/ms/0/0x16"@ && body == "{\"data\":["@ + decimal(
                ids[nets.len() as int] as nat,
            ) + "]}"@)
            &&& nets.len() >= ids.len() ==> next == NextView::Done(nodes_of(ids, nets))
        }),
{
    lemma_paths();
}

/// What is told of a node: its number, the address in the first two of its words and
/// the version in the fifth.
pub proof fn law_node_by_words(id: u32, net: Seq<u32>)
    ensures
        node_of(id, net) is Ok <==> net.len() >= 5,
        node_of(id, net) matches Ok(node) ==> node.node_id == id && node.mac == mac_text(
            net[0],
            net[1],
        ) && node.moca_version == decimal((net[4] as nat / 16) % 16) + "."@ + decimal(
            net[4] as nat % 16,
        ),
{
    if net.len() >= 5 {
        law_version_by_digits(net[4]);
    }
}

/// The version of a node among those read: the lowest byte of the fifth word that the
/// adapter holds of it.
proof fn lemma_versions(ids: Seq<u32>, nets: Seq<Seq<u32>>)
    requires
        nets.len() <= ids.len(),
        forall|i: int| 0 <= i < ids.len() ==> (#[trigger] ids[i]) < 16,
        forall|i: int, j: int| 0 <= i < j < ids.len() ==> (#[trigger] ids[i]) < (#[trigger] ids[j]),
    ensures
        versions(ids, nets).len() == 16,
        forall|k: int|
            0 <= k < nets.len() ==> versions(ids, nets)[#[trigger] ids[k] as int] as int
                == nets[k][4] as int % 0x100,
        forall|node: int|
            0 <= node < 16 && (forall|k: int| 0 <= k < nets.len() ==> (#[trigger] ids[k]) as int
                != node) ==> (#[trigger] versions(ids, nets)[node]) == 0,
    decreases nets.len(),
{
    if nets.len() > 0 {
        let before = nets.drop_last();
        let n = nets.len() - 1;
        lemma_versions(ids, before);
        lemma_low_byte(nets[n][4]);
        let vers = versions(ids, nets);
        assert forall|k: int| 0 <= k < nets.len() implies vers[#[trigger] ids[k] as int] as int
            == nets[k][4] as int % 0x100 by {
            if k < n {
                assert(ids[k] < ids[n]);
                assert(before[k] == nets[k]);
            }
        }
        assert forall|node: int|
            0 <= node < 16 && (forall|k: int| 0 <= k < nets.len() ==> (#[trigger] ids[k]) as int
                != node) implies (#[trigger] vers[node]) == 0 by {
            assert(ids[n] as int != node);
            assert(versions(ids, before)[node] == 0);
        }
    }
}

proof fn lemma_low_byte(w: u32)
    ensures
        w as u8 as int == w as int % 0x100,
{
    assert(w as u8 == w % 0x100) by (bit_vector);
}

/// What decides how rates are packed: the nodes that are present, the version that
/// the adapter holds of each, none of the others, and that of the coordinator, which
/// the local information names.
pub proof fn law_layout_by_answers(local: Seq<u32>, nets: Seq<Seq<u32>>)
    requires
        local.len() > 12,
        nets.len() == present_nodes(local[12], 16).len(),
    ensures
        ({
            let ids = present_nodes(local[12], 16);
            let layout = layout_of(local, nets);
            &&& layout.node_bitmask == local[12]
            &&& layout.node_vers.len() == 16
            &&& forall|k: int|
                0 <= k < ids.len() ==> layout.node_vers[#[trigger] ids[k] as int] as int
                    == nets[k][4] as int % 0x100
            &&& forall|node: int|
                0 <= node < 16 && !bit(local[12] as nat, node as nat) ==> (
                #[trigger] layout.node_vers[node]) == 0
            &&& layout.nc_moca_ver == if local[1] < 16 {
                layout.node_vers[local[1] as int]
            } else {
                0
            }
        }),
{
    let ids = present_nodes(local[12], 16);
    lemma_present_nodes(local[12], 16);
    law_nodes_are_bits(local[12], 16);
    lemma_versions(ids, nets);
    let layout = layout_of(local, nets);
    assert forall|node: int| 0 <= node < 16 && !bit(local[12] as nat, node as nat) implies (
    #[trigger] layout.node_vers[node]) == 0 by {
        assert forall|k: int| 0 <= k < nets.len() implies (#[trigger] ids[k]) as int != node by {
            assert(nodes_set(local[12], 16).contains(ids[k] as int));
        }
    }
}

pub proof fn lemma_net_complaint(nets: Seq<Seq<u32>>)
    ensures
        net_complaint(nets) is None <==> forall|k: int|
            0 <= k < nets.len() ==> (#[trigger] nets[k]).len() >= 5,
        net_complaint(nets) matches Some(e) ==> (e matches ErrorView::Decode { cmd, .. } && cmd
            == "0x16"@),
    decreases nets.len(),
{
    if nets.len() > 0 {
        let before = nets.drop_last();
        lemma_net_complaint(before);
        assert(nets[nets.len() - 1] == nets.last());
        if forall|k: int| 0 <= k < nets.len() ==> (#[trigger] nets[k]).len() >= 5 {
            assert forall|k: int| 0 <= k < before.len() implies (#[trigger] before[k]).len()
                >= 5 by {
                assert(nets[k].len() >= 5);
            }
            assert(nets[nets.len() - 1].len() >= 5);
        }
        if net_complaint(nets) is None {
            assert forall|k: int| 0 <= k < nets.len() implies (#[trigger] nets[k]).len() >= 5 by {
                if k < nets.len() - 1 {
                    assert(before[k].len() >= 5);
                }
            }
        }
    }
}

/// The rates of a network are read node by node, in ascending order: first what the
/// adapter holds of each node, by its number, then the parameters of each node, by
/// its bit, in version 2 where the network is in 2.0 or above and in version 1 else.
pub proof fn law_rates_asked_in_order(local: Seq<u32>, nets: Seq<Seq<u32>>, fmrs: Seq<Seq<u32>>)
    requires
        local.len() > 12,
        forall|k: int| 0 <= k < nets.len() ==> (#[trigger] nets[k]).len() >= 5,
    ensures
        ({
            let ids = present_nodes(local[12], 16);
            let next = phy_next(PhyView { local: Some(local), nets, fmrs });
            &&& nets.len() < ids.len() ==> (next matches NextView::Read { cmd, body }
                && cmd.spec_path() == "/ms/0/0x16"@ && body == "{\"data\":["@ + decimal(
                ids[nets.len() as int] as nat,
            ) + "]}"@)
            &&& nets.len() >= ids.len() && fmrs.len() < ids.len() && next is Read ==> (next matches
                NextView::Read { cmd, body } && cmd.spec_path() == "/ms/0/0x1D"@ && body
                == "{\"data\":["@ + decimal(pow2(ids[fmrs.len() as int] as nat)) + if local[11]
                >= 0x20 {
                ",2]}"@
            } else {
                ",1]}"@
            })
        }),
{
    lemma_paths();
    lemma_net_complaint(nets);
    lemma_present_nodes(local[12], 16);
    let ids = present_nodes(local[12], 16);
    if nets.len() >= ids.len() && fmrs.len() < ids.len() {
        let id = ids[fmrs.len() as int];
        law_bodies_by_number(id, 1);
        law_bodies_by_number(id, 2);
        reveal_strlit(",");
        reveal_strlit("]}");
        reveal_strlit(",2]}");
        reveal_strlit(",1]}");
        assert(decimal(1) =~= seq!['1']);
        assert(decimal(2) =~= seq!['2']);
        let front = "{\"data\":["@ + decimal(pow2(id as nat));
        assert(fmr_body(id, 1) =~= front + ",1]}"@);
        assert(fmr_body(id, 2) =~= front + ",2]}"@);
    }
}

/// Which answers a network's rates are made of.
pub open spec fn rates_of(local: Seq<u32>, nets: Seq<Seq<u32>>, fmrs: Seq<Seq<u32>>) -> NextView<
    PhyRatesView,
> {
    phy_next(PhyView { local: Some(local), nets, fmrs })
}

proof fn lemma_links_read(layout: Layout, ids: Seq<u32>, fmrs: Seq<Seq<u32>>, i: int)
    requires
        ids == present_nodes(layout.node_bitmask, 16),
        fmrs.len() <= ids.len(),
        0 <= i < fmrs.len(),
        links_read(layout, ids, fmrs) is Ok,
    ensures
        ({
            let n = ids.len() as int;
            let links = links_read(layout, ids, fmrs)->Ok_0;
            &&& links.len() == fmrs.len() * n
            &&& 0 <= i * n <= i * n + n <= links.len()
            &&& layout.links(ids[i], 16, fmrs[i]) matches Ok(own) && links.subrange(i * n, i * n + n)
                == own
        }),
    decreases fmrs.len(),
{
    let n = ids.len() as int;
    let last = fmrs.len() - 1;
    law_rates_complete(layout, fmrs);
    law_rates_complete(layout, fmrs.drop_last());
    let links = links_read(layout, ids, fmrs)->Ok_0;
    let before = links_read(layout, ids, fmrs.drop_last())->Ok_0;
    let own = layout.links(ids[last], 16, fmrs.last())->Ok_0;
    law_one_link_per_node(layout, ids[last], 16, fmrs.last());
    assert(links == before + own);
    assert(before.len() == last * n);
    assert(0 <= i * n <= i * n + n <= fmrs.len() * n) by (nonlinear_arith)
        requires
            0 <= i < fmrs.len(),
            n >= 0,
    ;
    if i < last {
        lemma_links_read(layout, ids, fmrs.drop_last(), i);
        assert(links.subrange(i * n, i * n + n) =~= before.subrange(i * n, i * n + n));
        assert(fmrs.drop_last()[i] == fmrs[i]);
    } else {
        assert(own.len() == n);
        assert(links.subrange(i * n, i * n + n) =~= own);
    }
}

/// The rates of a network that was read to the end: for each node its version, in
/// ascending order; the links of each node as its own answer gives them, one node's
/// behind the other's; and as the node's own rate the NPER rate of its link to itself.
pub proof fn law_rates_by_answers(
    local: Seq<u32>,
    nets: Seq<Seq<u32>>,
    fmrs: Seq<Seq<u32>>,
    i: int,
)
    requires
        local.len() > 12,
        nets.len() == present_nodes(local[12], 16).len(),
        fmrs.len() == nets.len(),
        0 <= i < nets.len(),
    ensures
        rates_of(local, nets, fmrs) matches NextView::Done(Ok(rates)) ==> {
            let ids = present_nodes(local[12], 16);
            let n = ids.len() as int;
            &&& rates.node_versions.len() == n
            &&& rates.node_versions[i].0 == ids[i]
            &&& rates.node_versions[i].1 as int == nets[i][4] as int % 0x100
            &&& rates.links.len() == n * n
            &&& 0 <= i * n <= i * n + n <= n * n
            &&& layout_of(local, nets).links(ids[i], 16, fmrs[i]) == Ok::<Seq<PhyLink>, ErrorView>(
                rates.links.subrange(i * n, i * n + n),
            )
            &&& rates.gcd_mbps.len() == n
            &&& rates.gcd_mbps[i].0 == ids[i]
            &&& rates.links[i * n + i].from_node == ids[i]
            &&& rates.links[i * n + i].to_node == ids[i]
            &&& rates.gcd_mbps[i].1 == rates.links[i * n + i].nper_mbps
        },
{
    if let NextView::Done(Ok(rates)) = rates_of(local, nets, fmrs) {
        let ids = present_nodes(local[12], 16);
        let n = ids.len() as int;
        let layout = layout_of(local, nets);
        lemma_net_complaint(nets);
        lemma_low_byte(nets[i][4]);
        lemma_links_read(layout, ids, fmrs, i);
        law_rates_complete(layout, fmrs);
        assert(i * n + i < n * n && 0 <= i * n + i) by (nonlinear_arith)
            requires
                0 <= i < n,
        ;
        lemma_present_nodes(local[12], 16);
        assert(by_node(rates.links, ids, n));
        assert(rates.links[i * n + i].from_node == ids[i]);
        lemma_own_rate(rates.links, ids, n, i);
    }
}

/// Whether links stand node by node, each node's in the order of the nodes.
spec fn by_node(links: Seq<PhyLink>, ids: Seq<u32>, rows: int) -> bool {
    &&& links.len() == rows * ids.len()
    &&& forall|a: int, b: int|
        0 <= a < rows && 0 <= b < ids.len() ==> (#[trigger] links[a * ids.len() + b]).from_node
            == ids[a] && links[a * ids.len() + b].to_node == ids[b]
    &&& forall|a: int, b: int| 0 <= a < b < ids.len() ==> (#[trigger] ids[a]) < (#[trigger] ids[b])
}

proof fn lemma_diagonal(links: Seq<PhyLink>, ids: Seq<u32>, rows: int, a: int, b: int)
    requires
        by_node(links, ids, rows),
        rows <= ids.len(),
        0 <= a <= rows,
        0 <= b <= ids.len(),
        a == rows ==> b == 0,
    ensures
        ({
            let n = ids.len() as int;
            let own = self_rates(links.take(a * n + b));
            &&& 0 <= a * n + b <= links.len()
            &&& own.len() == a + if b > a {
                1int
            } else {
                0
            }
            &&& forall|k: int|
                0 <= k < own.len() ==> (#[trigger] own[k]).1 == links[k * n + k].nper_mbps
        }),
    decreases a, b,
{
    let n = ids.len() as int;
    assert(0 <= a * n + b <= rows * n) by (nonlinear_arith)
        requires
            0 <= a <= rows,
            0 <= b <= n,
            a == rows ==> b == 0,
    ;
    let taken = links.take(a * n + b);
    if b > 0 {
        lemma_diagonal(links, ids, rows, a, b - 1);
        assert(taken.drop_last() =~= links.take(a * n + b - 1));
        assert(taken.last() == links[a * n + (b - 1)]);
        if b - 1 < a {
            assert(ids[b - 1] < ids[a]);
        } else if a < b - 1 {
            assert(ids[a] < ids[b - 1]);
        }
    } else if a > 0 {
        lemma_diagonal(links, ids, rows, a - 1, n);
        assert((a - 1) * n + n == a * n) by (nonlinear_arith);
    } else {
        assert(0 * n == 0) by (nonlinear_arith);
        assert(taken =~= Seq::empty());
    }
}

/// Among links that stand node by node, the rates of nodes with themselves are those
/// on the diagonal, in order.
proof fn lemma_own_rate(links: Seq<PhyLink>, ids: Seq<u32>, rows: int, i: int)
    requires
        by_node(links, ids, rows),
        0 <= i < rows <= ids.len(),
    ensures
        self_rates(links).len() == rows,
        self_rates(links)[i].1 == links[i * ids.len() + i].nper_mbps,
{
    lemma_diagonal(links, ids, rows, rows, 0);
    assert(links.take(rows * ids.len() as int + 0) =~= links);
}

} // verus!
