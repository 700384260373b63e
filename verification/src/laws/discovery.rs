//! Which addresses are probed, and which of them are adapters.

use crate::discover::{
    arp_entries, arp_entry, block_size, cidr_block, found_by_mac, full_octet, host_range, hosts,
    is_fingerprint, known_makers, law_hosts_share_prefix, matching, names_moca_server, network,
    octets, oui_matches, oui_of, word_after_at, Found,
};
use crate::error::ErrorView;
use crate::laws::texts::{law_address_is_its_text, law_found_first};
use crate::net::{address, address_of, Ipv4Addr};
use crate::text::{
    debug_text, decimal, find_from, lemma_split_join, lemma_split_whole, lower, lower_text, number,
    split, words, Cut,
};
use vstd::arithmetic::power2::{
    lemma_pow2_pos, lemma_pow2_strictly_increases, lemma_pow2_unfold, pow2,
};
use vstd::prelude::*;

verus! {

/// The letters that name the adapters' web server.
pub open spec fn server_letters() -> Seq<char> {
    seq!['i', 'n', 't', 'e', 'r', 'n', 'i', 'c', 'h', 'e']
}

/// Whether a character is a small letter or its capital.
pub open spec fn is_letter(c: char, small: char) -> bool {
    c == small || c as u32 + 32 == small as u32
}

/// A header names the adapters' web server exactly where the ten letters stand in it in
/// a row, each small or capital.
pub proof fn law_server_by_letters(header: Seq<char>)
    ensures
        names_moca_server(header) <==> exists|at: int|
            0 <= at && at + 10 <= header.len() && #[trigger] letters_at(header, at),
{
    reveal_strlit("interniche");
    let part = "interniche"@;
    assert(part =~= server_letters());
    let low = lower_text(header);
    if names_moca_server(header) {
        let at = choose|at: int| crate::text::occurs_at(low, part, at);
        assert forall|k: int| 0 <= k < 10 implies is_letter(
            #[trigger] header[at + k],
            server_letters()[k],
        ) by {
            assert(low.subrange(at, at + part.len())[k] == part[k]);
            assert(low[at + k] == lower(header[at + k]));
        }
        assert(letters_at(header, at));
    }
    if exists|at: int| 0 <= at && at + 10 <= header.len() && #[trigger] letters_at(header, at) {
        let at = choose|at: int|
            0 <= at && at + 10 <= header.len() && #[trigger] letters_at(header, at);
        assert forall|k: int| 0 <= k < 10 implies low[at + k] == part[k] by {
            assert(is_letter(header[at + k], server_letters()[k]));
            lemma_small(k);
        }
        assert(low.subrange(at, at + part.len()) =~= part);
        assert(crate::text::occurs_at(low, part, at));
    }
}

/// Whether the ten letters stand at a place.
pub open spec fn letters_at(header: Seq<char>, at: int) -> bool {
    forall|k: int| 0 <= k < 10 ==> is_letter(#[trigger] header[at + k], server_letters()[k])
}

proof fn lemma_small(k: int)
    requires
        0 <= k < 10,
    ensures
        'a' <= server_letters()[k] <= 'z',
{
}

/// A block has two to the power of as many addresses as the prefix leaves bits.
pub proof fn law_block_size(prefix: nat)
    requires
        prefix <= 32,
    ensures
        block_size(prefix) == pow2((32 - prefix) as nat),
    decreases 32 - prefix,
{
    if prefix < 32 {
        law_block_size(prefix + 1);
        lemma_pow2_unfold((32 - prefix) as nat);
    } else {
        vstd::arithmetic::power2::lemma2_to64();
    }
}

/// The hosts of a block are exactly the addresses that agree with the given one in the
/// bits of the prefix, without the first and the last of the block unless the block
/// has at most two.
pub proof fn law_hosts_by_bits(base: Ipv4Addr, prefix: nat, host: Ipv4Addr)
    requires
        16 <= prefix <= 32,
    ensures
        hosts(base.number(), prefix).contains(host) <==> ({
            let size = pow2((32 - prefix) as nat) as int;
            let n = host.number() as int;
            &&& n / size == base.number() as int / size
            &&& prefix <= 30 ==> n % size != 0 && n % size != size - 1
        }),
{
    let all = hosts(base.number(), prefix);
    let size = block_size(prefix) as int;
    law_block_size(prefix);
    lemma_pow2_pos((32 - prefix) as nat);
    let n = host.number() as int;
    let b = base.number() as int;
    let q = b / size;
    let (from, to) = host_range(base.number(), prefix);
    assert(network(base.number(), prefix) == q * size) by {
        assert(q * size >= 0) by (nonlinear_arith)
            requires
                q >= 0,
                size > 0,
        ;
    }
    if prefix <= 30 {
        lemma_pow2_strictly_increases(1, (32 - prefix) as nat);
        vstd::arithmetic::power2::lemma2_to64();
    }
    if all.contains(host) {
        let i = choose|i: int| 0 <= i < all.len() && all[i] == host;
        law_hosts_share_prefix(base, prefix, i);
        vstd::arithmetic::div_mod::lemma_fundamental_div_mod(n, size);
        assert(n % size == n - q * size) by (nonlinear_arith)
            requires
                n == size * (n / size) + n % size,
                n / size == q,
        ;
    }
    if n / size == q && (prefix <= 30 ==> n % size != 0 && n % size != size - 1) {
        vstd::arithmetic::div_mod::lemma_fundamental_div_mod(n, size);
        vstd::arithmetic::div_mod::lemma_mod_bound(n, size);
        assert(n == q * size + n % size) by (nonlinear_arith)
            requires
                n == size * (n / size) + n % size,
                n / size == q,
        ;
        let i = n - from;
        assert(0 <= i < to - from);
        crate::net::lemma_address_of(host);
        assert(all[i] == address_of((from + i) as nat));
        assert(all[i] == host);
    }
}

/// A block is written as an address, a slash and a prefix from 16 up to 32; anything
/// else is told what is wrong with it.
pub proof fn law_block_by_parts(addr: Seq<char>, bits: Seq<char>, whole: Seq<char>)
    requires
        !addr.contains('/'),
        !whole.contains('/'),
    ensures
        cidr_block(whole) == Err::<Seq<Ipv4Addr>, ErrorView>(
            ErrorView::Config("bad cidr "@ + debug_text(whole)),
        ),
        ({
            let cidr = addr + seq!['/'] + bits;
            &&& (forall|ip: Ipv4Addr| addr != #[trigger] ip.text()) ==> cidr_block(cidr) == Err::<
                Seq<Ipv4Addr>,
                ErrorView,
            >(ErrorView::Config("bad cidr address "@ + debug_text(addr)))
            &&& forall|ip: Ipv4Addr| addr == #[trigger] ip.text() ==> cidr_block(cidr) == match number(bits, 10) {
                Err(_) => Err::<Seq<Ipv4Addr>, ErrorView>(
                    ErrorView::Config("bad cidr prefix "@ + debug_text(bits)),
                ),
                Ok(prefix) => if prefix < 16 || prefix > 32 {
                    Err(
                        ErrorView::Config(
                            "cidr prefix "@ + decimal(prefix) + " out of range 16..=32"@,
                        ),
                    )
                } else {
                    Ok(hosts(ip.number(), prefix))
                },
            }
        }),
{
    law_found_first(whole, '/', 0);
    if let Some(at) = find_from(whole, '/', 0) {
        assert(whole.contains(whole[at]));
    }
    let cidr = addr + seq!['/'] + bits;
    law_found_first(cidr, '/', 0);
    let n = addr.len() as int;
    assert(cidr[n] == '/');
    let at = find_from(cidr, '/', 0)->0;
    if at < n {
        assert(cidr[at] == addr[at]);
        assert(addr.contains(addr[at]));
    }
    assert(at == n);
    assert(cidr.subrange(0, n) =~= addr);
    assert(cidr.subrange(n + 1, cidr.len() as int) =~= bits);
    if let Some(ip) = address(addr) {
        law_address_is_its_text(addr, ip);
    }
    assert forall|ip: Ipv4Addr| addr == #[trigger] ip.text() implies address(addr) == Some(ip) by {
        law_address_is_its_text(addr, ip);
    }
}

/// Whether a text is an octet: nothing in it parts octets.
pub open spec fn is_octet(s: Seq<char>) -> bool {
    forall|i: int| 0 <= i < s.len() ==> (#[trigger] s[i]) != ':' && s[i] != '-'
}

/// An octet in two characters at least, with zeros before it where it has fewer.
pub open spec fn in_two(s: Seq<char>) -> Seq<char> {
    if s.len() < 2 {
        Seq::new((2 - s.len()) as nat, |i: int| '0') + s
    } else {
        s
    }
}

/// A hardware address has a maker exactly where one of those listed is its first three
/// octets one behind the other, each with zeros before it up to two characters, in
/// whatever case.
pub proof fn law_maker_by_octets(
    x: Seq<char>,
    y: Seq<char>,
    z: Seq<char>,
    rest: Seq<char>,
    ouis: Seq<&str>,
)
    requires
        is_octet(x),
        is_octet(y),
        is_octet(z),
    ensures
        oui_matches(x + seq![':'] + y + seq![':'] + z + seq![':'] + rest, ouis) <==> exists|i: int|
            0 <= i < ouis.len() && lower_text((#[trigger] ouis[i])@) == lower_text(
                in_two(x) + in_two(y) + in_two(z),
            ),
{
    let cut = Cut::AtEither('-', ':').pred();
    let mac = x + seq![':'] + y + seq![':'] + z + seq![':'] + rest;
    let two = y.push(':') + (z.push(':') + rest);
    assert(mac =~= x.push(':') + two);
    lemma_whole(x);
    lemma_whole(y);
    lemma_whole(z);
    lemma_split_join(x, ':', two, cut);
    lemma_split_join(y, ':', z.push(':') + rest, cut);
    lemma_split_join(z, ':', rest, cut);
    let list = octets(mac);
    assert(list =~= seq![x] + (seq![y] + (seq![z] + split(rest, cut))));
    assert(list[0] == x && list[1] == y && list[2] == z);
    lemma_full(x);
    lemma_full(y);
    lemma_full(z);
    let oui = lower_text(in_two(x) + in_two(y) + in_two(z));
    assert(lower_text(in_two(x)) + lower_text(in_two(y)) + lower_text(in_two(z)) =~= oui);
    assert(oui_of(mac) == Some(oui));
    assert(lower_text(oui) =~= oui);
}

proof fn lemma_full(s: Seq<char>)
    ensures
        full_octet(s) == lower_text(in_two(s)),
{
    assert(full_octet(s) =~= lower_text(in_two(s)));
}

proof fn lemma_whole(s: Seq<char>)
    requires
        is_octet(s),
    ensures
        split(s, Cut::AtEither('-', ':').pred()) == seq![s],
{
    lemma_split_whole(s, Cut::AtEither('-', ':').pred());
}

/// The word looked for stands behind the first `at`.
pub proof fn law_word_after_at(list: Seq<Seq<char>>)
    ensures
        match word_after_at(list) {
            Some(word) => exists|i: int|
                0 <= i && i + 1 < list.len() && #[trigger] list[i] == seq!['a', 't'] && list[i + 1]
                    == word && forall|j: int|
                    0 <= j < i ==> #[trigger] list[j] != seq!['a', 't'],
            None => forall|i: int|
                0 <= i && i + 1 < list.len() && #[trigger] list[i] == seq!['a', 't'] ==> exists|
                    j: int,
                |
                    0 <= j < i && #[trigger] list[j] == seq!['a', 't'],
        },
    decreases list.len(),
{
    reveal_strlit("at");
    let at = seq!['a', 't'];
    assert("at"@ =~= at);
    if list.len() > 0 {
        if list[0] == at {
            if list.len() > 1 {
                assert(list[0int + 1] == word_after_at(list)->0);
            }
        } else {
            let more = list.skip(1);
            law_word_after_at(more);
            match word_after_at(more) {
                Some(word) => {
                    let i = choose|i: int|
                        0 <= i && i + 1 < more.len() && #[trigger] more[i] == at && more[i + 1]
                            == word && forall|j: int| 0 <= j < i ==> #[trigger] more[j] != at;
                    assert(list[i + 1] == more[i]);
                    assert(list[i + 1 + 1] == more[i + 1]);
                    assert forall|j: int| 0 <= j < i + 1 implies #[trigger] list[j] != at by {
                        if j > 0 {
                            assert(list[j] == more[j - 1]);
                        }
                    }
                },
                None => {
                    assert forall|i: int|
                        0 <= i && i + 1 < list.len() && #[trigger] list[i] == at implies exists|
                        j: int,
                    |
                        0 <= j < i && #[trigger] list[j] == at by {
                        assert(list[i] == more[i - 1]);
                        let j = choose|j: int| 0 <= j < i - 1 && #[trigger] more[j] == at;
                        assert(list[j + 1] == more[j]);
                    }
                },
            }
        }
    }
}

/// A line of the table is an entry exactly where its first bracket holds an address in
/// dotted notation and a word stands behind `at`: the entry is the two.
pub proof fn law_arp_line(line: Seq<char>, before: Seq<char>, after: Seq<char>, ip: Ipv4Addr)
    requires
        !before.contains('('),
        line == before + seq!['('] + ip.text() + seq![')'] + after,
    ensures
        arp_entry(line) == match word_after_at(words(line)) {
            Some(mac) => Some((ip, mac)),
            None => None,
        },
{
    let open = before.len() as int;
    let close = open + 1 + ip.text().len();
    law_found_first(line, '(', 0);
    assert(line[open] == '(');
    let at = find_from(line, '(', 0)->0;
    if at < open {
        assert(line[at] == before[at]);
        assert(before.contains(before[at]));
    }
    assert(at == open);
    law_found_first(line, ')', open);
    assert(line[close] == ')');
    let end = find_from(line, ')', open)->0;
    lemma_address_plain(ip);
    if end < close {
        if end > open {
            assert(line[end] == ip.text()[end - open - 1]);
        }
    }
    assert(end == close);
    assert(line.subrange(open + 1, close) =~= ip.text());
    law_address_is_its_text(ip.text(), ip);
}

/// Nothing else is an entry.
pub proof fn law_arp_entry_from_line(line: Seq<char>)
    ensures
        arp_entry(line) matches Some((ip, mac)) ==> exists|before: Seq<char>, after: Seq<char>|
            !before.contains('(') && line == #[trigger] (before + seq!['('] + ip.text() + seq![')']
                + after),
{
    if let Some((ip, mac)) = arp_entry(line) {
        law_found_first(line, '(', 0);
        let open = find_from(line, '(', 0)->0;
        law_found_first(line, ')', open);
        let close = find_from(line, ')', open)->0;
        let before = line.take(open);
        let after = line.skip(close + 1);
        law_address_is_its_text(line.subrange(open + 1, close), ip);
        if before.contains('(') {
            let i = choose|i: int| 0 <= i < before.len() && before[i] == '(';
            assert(line[i] == '(');
        }
        assert(line =~= before + seq!['('] + ip.text() + seq![')'] + after);
    }
}

proof fn lemma_address_plain(ip: Ipv4Addr)
    ensures
        forall|i: int| 0 <= i < ip.text().len() ==> (#[trigger] ip.text()[i]) != ')',
{
    reveal_strlit(".");
    crate::laws::metrics::lemma_decimal_plain(ip.a as nat);
    crate::laws::metrics::lemma_decimal_plain(ip.b as nat);
    crate::laws::metrics::lemma_decimal_plain(ip.c as nat);
    crate::laws::metrics::lemma_decimal_plain(ip.d as nat);
}

/// The entries of a table are those of its lines, in order, and a line that is none
/// gives none.
pub proof fn law_arp_lines(a: Seq<Seq<char>>, b: Seq<Seq<char>>, line: Seq<char>)
    ensures
        arp_entries(a + b) == arp_entries(a) + arp_entries(b),
        arp_entries(seq![line]) == match arp_entry(line) {
            Some(entry) => seq![entry],
            None => Seq::empty(),
        },
    decreases b.len(),
{
    let one = seq![line];
    assert(one.drop_last() =~= Seq::empty());
    assert(arp_entries(one.drop_last()) =~= Seq::empty());
    assert(arp_entries(one) =~= match arp_entry(line) {
        Some(entry) => seq![entry],
        None => Seq::empty(),
    });
    if b.len() == 0 {
        assert(a + b =~= a);
        assert(arp_entries(a) + arp_entries(b) =~= arp_entries(a));
    } else {
        assert((a + b).drop_last() =~= a + b.drop_last());
        law_arp_lines(a, b.drop_last(), line);
        assert(arp_entries(a + b) =~= arp_entries(a) + arp_entries(b));
    }
}

/// The entries that are kept are those whose maker is listed, in order.
pub proof fn law_kept_entries(
    a: Seq<(Ipv4Addr, Seq<char>)>,
    b: Seq<(Ipv4Addr, Seq<char>)>,
    entry: (Ipv4Addr, Seq<char>),
    ouis: Seq<&str>,
)
    ensures
        matching(a + b, ouis) == matching(a, ouis) + matching(b, ouis),
        matching(seq![entry], ouis) == if oui_matches(entry.1, ouis) {
            seq![entry]
        } else {
            Seq::empty()
        },
    decreases b.len(),
{
    let one = seq![entry];
    assert(one.drop_last() =~= Seq::empty());
    assert(matching(one.drop_last(), ouis) =~= Seq::empty());
    assert(matching(one, ouis) =~= if oui_matches(entry.1, ouis) {
        seq![entry]
    } else {
        Seq::empty()
    });
    if b.len() == 0 {
        assert(a + b =~= a);
        assert(matching(a, ouis) + matching(b, ouis) =~= matching(a, ouis));
    } else {
        assert((a + b).drop_last() =~= a + b.drop_last());
        law_kept_entries(a, b.drop_last(), entry, ouis);
        assert(matching(a + b, ouis) =~= matching(a, ouis) + matching(b, ouis));
    }
}

/// A probe shows an adapter exactly where the answer carries a header that names the
/// adapters' web server: the adapter has the address probed and that header.
pub proof fn law_probe(ip: Ipv4Addr, server: Option<&str>, r: Option<Found>)
    requires
        is_fingerprint(ip, server, r),
    ensures
        r is Some <==> server is Some && names_moca_server(server->0@),
        r matches Some(found) ==> found.ip == ip && found.mac is None && (found.server matches Some(
            s,
        ) && s@ == server->0@),
{
}

/// The adapters found in the table are those of its entries, each with the address and
/// the hardware address of its entry.
pub proof fn law_found_in_table(
    found: Seq<Found>,
    entries: Seq<(Ipv4Addr, Seq<char>)>,
    i: int,
)
    requires
        found_by_mac(found, entries),
        0 <= i < entries.len(),
    ensures
        found.len() == entries.len(),
        found[i].ip == entries[i].0,
        found[i].server is None,
        found[i].mac matches Some(mac) && mac@ == entries[i].1,
{
}

/// The adapters known are those whose hardware address begins with 94:cc:04.
pub proof fn law_known_makers(x: Seq<char>, y: Seq<char>, z: Seq<char>, rest: Seq<char>)
    requires
        is_octet(x) && x.len() == 2,
        is_octet(y) && y.len() == 2,
        is_octet(z) && z.len() == 2,
    ensures
        oui_matches(x + seq![':'] + y + seq![':'] + z + seq![':'] + rest, known_makers())
            <==> lower_text(x) == seq!['9', '4'] && lower_text(y) == seq!['c', 'c'] && lower_text(z)
            == seq!['0', '4'],
{
    assert(in_two(x) == x && in_two(y) == y && in_two(z) == z);
    law_maker_by_octets(x, y, z, rest, known_makers());
    reveal_strlit("94cc04");
    let maker = "94cc04"@;
    assert(known_makers()[0]@ == maker);
    assert(lower_text(maker) =~= seq!['9', '4', 'c', 'c', '0', '4']);
    let all = lower_text(x + y + z);
    assert(all =~= lower_text(x) + lower_text(y) + lower_text(z));
    if all == lower_text(maker) {
        assert(lower_text(x) =~= all.subrange(0, 2));
        assert(lower_text(y) =~= all.subrange(2, 4));
        assert(lower_text(z) =~= all.subrange(4, 6));
        assert(lower_text(x) =~= seq!['9', '4']);
        assert(lower_text(y) =~= seq!['c', 'c']);
        assert(lower_text(z) =~= seq!['0', '4']);
    }
    if lower_text(x) == seq!['9', '4'] && lower_text(y) == seq!['c', 'c'] && lower_text(z)
        == seq!['0', '4'] {
        assert(all =~= lower_text(maker));
    }
}

} // verus!
