//! Finding adapters on a network: by the web server that they run, and by the
//! makers of their network interfaces.

use crate::error::{Error, ErrorView, Result};
use crate::net::{address, address_of, lemma_address_of, Ipv4Addr};
use crate::text::{
    chars_of, contains_text, copy_between, debug_text, decimal, decimal_text, find_from, has_part,
    lemma_split_join, lemma_split_whole, lines, lines_of, lower, lower_text, lowered, number,
    parse_number, pieces, position_from, quoted, same_chars, split, text_of, views, words, words_of,
    Cut,
};
use vstd::prelude::*;

verus! {

/// An adapter that was found.
#[derive(Debug, Clone, PartialEq, Eq)]
pub struct Found {
    pub ip: Ipv4Addr,
    pub server: Option<String>,
    pub mac: Option<String>,
}

/// Whether a `Server` header names the web server of the adapters.
pub open spec fn names_moca_server(header: Seq<char>) -> bool {
    contains_text(lower_text(header), "interniche"@)
}

/// Whether a `Server` header names the web server of the adapters, in whatever
/// case.
pub fn is_moca_server(server_header: &str) -> (r: bool)
    ensures
        r == names_moca_server(server_header@),
{
    let cs = chars_of(server_header);
    let low = lowered(cs.as_slice());
    let part = chars_of("interniche");
    has_part(low.as_slice(), part.as_slice())
}

/// Whether `r` is what a probe of `ip` shows where the answer carries `server`.
pub open spec fn is_fingerprint(ip: Ipv4Addr, server: Option<&str>, r: Option<Found>) -> bool {
    match r {
        Some(found) => server is Some && names_moca_server(server->0@) && found.ip == ip
            && found.server is Some && found.server->0@ == server->0@ && found.mac is None,
        None => server is Some ==> !names_moca_server(server->0@),
    }
}

/// What a probe of `ip` shows: an adapter, if the answer carries a `Server`
/// header that names its web server.
pub fn fingerprint(ip: Ipv4Addr, server: Option<&str>) -> (r: Option<Found>)
    ensures
        match r {
            Some(found) => server is Some && names_moca_server(server->0@) && found.ip == ip
                && found.server is Some && found.server->0@ == server->0@ && found.mac is None,
            None => server is Some ==> !names_moca_server(server->0@),
        },
        is_fingerprint(ip, server, r),
{
    match server {
        Some(header) => if is_moca_server(header) {
            Some(Found { ip, server: Some(header.to_owned()), mac: None })
        } else {
            None
        },
        None => None,
    }
}

/// How many addresses share their first `prefix` bits.
pub open spec fn block_size(prefix: nat) -> nat
    decreases 32 - prefix,
{
    if prefix >= 32 {
        1
    } else {
        2 * block_size(prefix + 1)
    }
}

/// The number of the first address that shares its first `prefix` bits with
/// `base`.
pub open spec fn network(base: nat, prefix: nat) -> nat {
    (base / block_size(prefix) * block_size(prefix)) as nat
}

/// The numbers of the hosts in the block of `base`: from the first up to but
/// without the second. The first and the last address of a block stand for the
/// network and for all its hosts, and are none, unless the block has at most
/// two.
pub open spec fn host_range(base: nat, prefix: nat) -> (nat, nat) {
    let first = network(base, prefix);
    let end = first + block_size(prefix);
    if prefix >= 31 {
        (first, end)
    } else {
        (first + 1, (end - 1) as nat)
    }
}

/// The hosts in the block of `base`.
pub open spec fn hosts(base: nat, prefix: nat) -> Seq<Ipv4Addr> {
    let (from, to) = host_range(base, prefix);
    Seq::new((to - from) as nat, |i: int| address_of((from + i) as nat))
}

/// The hosts of the block that `cidr` writes.
pub open spec fn cidr_block(cidr: Seq<char>) -> core::result::Result<Seq<Ipv4Addr>, ErrorView> {
    match find_from(cidr, '/', 0) {
        None => Err(ErrorView::Config("bad cidr "@ + debug_text(cidr))),
        Some(at) => {
            let addr = cidr.subrange(0, at);
            let bits = cidr.subrange(at + 1, cidr.len() as int);
            match address(addr) {
                None => Err(ErrorView::Config("bad cidr address "@ + debug_text(addr))),
                Some(base) => match number(bits, 10) {
                    Err(_) => Err(ErrorView::Config("bad cidr prefix "@ + debug_text(bits))),
                    Ok(prefix) => if 16 <= prefix <= 32 {
                        Ok(hosts(base.number(), prefix))
                    } else {
                        Err(
                            ErrorView::Config(
                                "cidr prefix "@ + decimal(prefix) + " out of range 16..=32"@,
                            ),
                        )
                    },
                },
            }
        },
    }
}

/// A block has at least one address, and at most so many as its prefix allows.
proof fn lemma_block_size(prefix: nat)
    requires
        16 <= prefix <= 32,
    ensures
        1 <= block_size(prefix) <= 0x1_0000,
        prefix <= 31 ==> block_size(prefix) >= 2,
        prefix <= 30 ==> block_size(prefix) >= 4,
        prefix >= 31 ==> block_size(prefix) <= 2,
{
    reveal_with_fuel(block_size, 18);
}

/// How many blocks of so many bits there are.
spec fn blocks(prefix: nat) -> nat
    decreases prefix,
{
    if prefix == 0 {
        1
    } else {
        2 * blocks((prefix - 1) as nat)
    }
}

proof fn lemma_blocks(prefix: nat)
    requires
        prefix <= 32,
    ensures
        block_size(prefix) * blocks(prefix) == 0x1_0000_0000,
    decreases 32 - prefix,
{
    if prefix == 32 {
        reveal_with_fuel(blocks, 33);
        assert(blocks(32) == 0x1_0000_0000);
        assert(block_size(32) == 1);
    } else {
        lemma_blocks(prefix + 1);
        let half = block_size(prefix + 1);
        let n = blocks(prefix);
        assert(blocks(prefix + 1) == 2 * n);
        assert(block_size(prefix) == 2 * half);
        assert((2 * half) * n == half * (2 * n)) by (nonlinear_arith);
    }
}

proof fn lemma_block_fits(base: nat, prefix: nat)
    requires
        16 <= prefix <= 32,
        base < 0x1_0000_0000,
    ensures
        network(base, prefix) <= base < network(base, prefix) + block_size(prefix),
        network(base, prefix) + block_size(prefix) <= 0x1_0000_0000,
        network(base, prefix) == base - base % block_size(prefix),
{
    lemma_block_size(prefix);
    let size = block_size(prefix) as int;
    vstd::arithmetic::div_mod::lemma_fundamental_div_mod(base as int, size);
    let q = base as int / size;
    assert(q * size == size * q) by (nonlinear_arith);
    lemma_blocks(prefix);
    let all = blocks(prefix) as int;
    assert(q < all) by (nonlinear_arith)
        requires
            size * all == 0x1_0000_0000,
            size * q <= base,
            base < 0x1_0000_0000,
            size > 0,
    ;
    assert(size * q + size <= size * all) by (nonlinear_arith)
        requires
            q < all,
            size > 0,
    ;
}

fn block_of(prefix: u32) -> (r: u32)
    requires
        16 <= prefix <= 32,
    ensures
        r == block_size(prefix as nat),
{
    let mut size: u32 = 1;
    let mut at: u32 = 32;
    while at > prefix
        invariant
            16 <= prefix <= at <= 32,
            size == block_size(at as nat),
        decreases at,
    {
        proof {
            lemma_block_size((at - 1) as nat);
        }
        at = at - 1;
        size = size * 2;
    }
    size
}

fn list_hosts(base: Ipv4Addr, prefix: u32) -> (r: Vec<Ipv4Addr>)
    requires
        16 <= prefix <= 32,
    ensures
        r@ == hosts(base.number(), prefix as nat),
{
    let size: u32 = block_of(prefix);
    let word: u32 = base.to_word();
    proof {
        lemma_block_size(prefix as nat);
        lemma_block_fits(word as nat, prefix as nat);
    }
    let first: u64 = (word - word % size) as u64;
    let end: u64 = first + size as u64;
    let from: u64 = if prefix >= 31 {
        first
    } else {
        first + 1
    };
    let to: u64 = if prefix >= 31 {
        end
    } else {
        end - 1
    };
    let ghost all = hosts(base.number(), prefix as nat);
    let mut out: Vec<Ipv4Addr> = Vec::new();
    let mut h: u64 = from;
    while h < to
        invariant
            from <= h <= to <= 0x1_0000_0000,
            host_range(base.number(), prefix as nat) == (from as nat, to as nat),
            all == hosts(base.number(), prefix as nat),
            out@ == all.take(h - from),
        decreases to - h,
    {
        let ip = Ipv4Addr::from_word(h as u32);
        proof {
            lemma_address_of(ip);
            assert(all[h - from] == ip);
            assert(all.take(h - from + 1) =~= all.take(h - from).push(ip));
        }
        out.push(ip);
        h = h + 1;
    }
    assert(all.take(all.len() as int) =~= all);
    out
}

/// The hosts of the block that `cidr` writes, such as `192.0.2.0/24`. Blocks of
/// more than 65536 addresses are refused.
pub fn cidr_hosts(cidr: &str) -> (r: Result<Vec<Ipv4Addr>>)
    ensures
        match r {
            Ok(list) => cidr_block(cidr@) == Ok::<Seq<Ipv4Addr>, ErrorView>(list@),
            Err(e) => cidr_block(cidr@) == Err::<Seq<Ipv4Addr>, ErrorView>(e@),
        },
{
    let cs = chars_of(cidr);
    let at: usize = match position_from(cs.as_slice(), '/', 0) {
        Some(at) => at,
        None => {
            let shown = quoted(cidr);
            return Err(Error::Config("bad cidr ".to_owned().concat(shown.as_str())));
        },
    };
    let addr = copy_between(cs.as_slice(), 0, at);
    let base = match Ipv4Addr::parse_chars(addr.as_slice()) {
        Some(base) => base,
        None => {
            let text = text_of(addr.as_slice());
            let shown = quoted(text.as_str());
            return Err(Error::Config("bad cidr address ".to_owned().concat(shown.as_str())));
        },
    };
    let bits = copy_between(cs.as_slice(), at + 1, cs.len());
    let prefix: u32 = match parse_number(bits.as_slice(), 10) {
        Ok(prefix) => prefix,
        Err(_) => {
            let text = text_of(bits.as_slice());
            let shown = quoted(text.as_str());
            return Err(Error::Config("bad cidr prefix ".to_owned().concat(shown.as_str())));
        },
    };
    if prefix < 16 || prefix > 32 {
        let shown = decimal_text(prefix as u64);
        return Err(
            Error::Config(
                "cidr prefix ".to_owned().concat(shown.as_str()).concat(" out of range 16..=32"),
            ),
        );
    }
    Ok(list_hosts(base, prefix))
}

/// Every host that is listed shares the prefix with the address given, and is
/// listed once, in ascending order.
pub proof fn law_hosts_share_prefix(base: Ipv4Addr, prefix: nat, i: int)
    requires
        16 <= prefix <= 32,
        0 <= i < hosts(base.number(), prefix).len(),
    ensures
        ({
            let size = block_size(prefix);
            let host = hosts(base.number(), prefix)[i].number();
            &&& host / size == base.number() / size
            &&& host == host_range(base.number(), prefix).0 + i
        }),
{
    let n = base.number();
    lemma_address_of(base);
    lemma_block_size(prefix);
    lemma_block_fits(n, prefix);
    let host = (host_range(n, prefix).0 + i) as nat;
    lemma_numbered(host);
    let size = block_size(prefix) as int;
    let q = n as int / size;
    assert(host as int / size == q) by (nonlinear_arith)
        requires
            size > 0,
            q * size <= host < q * size + size,
    ;
}

/// A block of more than two addresses lists all but its first and its last; a
/// block of one or two lists them all.
pub proof fn law_host_count(base: Ipv4Addr, prefix: nat)
    requires
        16 <= prefix <= 32,
    ensures
        hosts(base.number(), prefix).len() == if prefix >= 31 {
            block_size(prefix) as int
        } else {
            block_size(prefix) - 2
        },
        prefix == 32 ==> hosts(base.number(), prefix) =~= seq![base],
        prefix <= 30 ==> forall|i: int|
            0 <= i < hosts(base.number(), prefix).len() ==> {
                let host = (#[trigger] hosts(base.number(), prefix)[i]).number();
                network(base.number(), prefix) < host < network(base.number(), prefix)
                    + block_size(prefix) - 1
            },
{
    let n = base.number();
    lemma_address_of(base);
    lemma_block_size(prefix);
    lemma_block_fits(n, prefix);
    if prefix == 32 {
        assert(block_size(32) == 1);
    }
    assert forall|i: int| 0 <= i < hosts(n, prefix).len() implies (#[trigger] hosts(
        n,
        prefix,
    )[i]).number() == host_range(n, prefix).0 + i by {
        lemma_numbered((host_range(n, prefix).0 + i) as nat);
    }
}

/// The address with the number `n` has that number.
proof fn lemma_numbered(n: nat)
    requires
        n < 0x1_0000_0000,
    ensures
        address_of(n).number() == n,
{
    let upper = n / 0x100;
    let high = upper / 0x100;
    let top = high / 0x100;
    assert(n / 0x1_0000 == high);
    assert(n / 0x100_0000 == top);
    assert(top < 0x100);
    assert(n == upper * 0x100 + n % 0x100);
    assert(upper == high * 0x100 + upper % 0x100);
    assert(high == top * 0x100 + high % 0x100);
}

/// Makers of the network interfaces of known adapters.
pub open spec fn known_makers() -> Seq<&'static str> {
    seq!["94cc04"]
}

/// Makers of the network interfaces of known adapters: the first three octets
/// of their addresses.
pub fn moca_ouis() -> (r: Vec<&'static str>)
    ensures
        r@ == seq!["94cc04"],
        r@ == known_makers(),
{
    vec!["94cc04"]
}

/// An octet in two digits at least, in lower case.
pub open spec fn full_octet(octet: Seq<char>) -> Seq<char> {
    let low = lower_text(octet);
    if low.len() == 0 {
        seq!['0', '0']
    } else if low.len() == 1 {
        seq!['0', low[0]]
    } else {
        low
    }
}

/// The octets of a hardware address.
pub open spec fn octets(mac: Seq<char>) -> Seq<Seq<char>> {
    split(mac, Cut::AtEither('-', ':').pred())
}

/// The first three octets of a hardware address, each written in full.
pub open spec fn oui_of(mac: Seq<char>) -> Option<Seq<char>> {
    let list = octets(mac);
    if list.len() < 3 {
        None
    } else {
        Some(full_octet(list[0]) + full_octet(list[1]) + full_octet(list[2]))
    }
}

/// Whether `mac` begins with one of `ouis`, in whatever case.
pub open spec fn oui_matches(mac: Seq<char>, ouis: Seq<&str>) -> bool {
    match oui_of(mac) {
        Some(oui) => exists|i: int|
            0 <= i < ouis.len() && lower_text((#[trigger] ouis[i])@) == lower_text(oui),
        None => false,
    }
}

fn push_octet(out: &mut Vec<char>, octet: &[char])
    ensures
        final(out)@ == old(out)@ + full_octet(octet@),
{
    let mut low = lowered(octet);
    if low.len() == 0 {
        out.push('0');
        out.push('0');
    } else if low.len() == 1 {
        out.push('0');
        out.push(low[0]);
    } else {
        out.append(&mut low);
    }
    assert(out@ =~= old(out)@ + full_octet(octet@));
}

/// Whether a hardware address begins with one of `ouis`. Its octets stand
/// between colons or dashes, with or without leading zeros.
pub fn mac_oui_matches(mac: &str, ouis: &[&str]) -> (r: bool)
    ensures
        r == oui_matches(mac@, ouis@),
{
    let cs = chars_of(mac);
    let octets = pieces(cs.as_slice(), Cut::AtEither('-', ':'));
    assert(views(octets@).len() == octets@.len());
    if octets.len() < 3 {
        return false;
    }
    let mut oui: Vec<char> = Vec::new();
    push_octet(&mut oui, octets[0].as_slice());
    push_octet(&mut oui, octets[1].as_slice());
    push_octet(&mut oui, octets[2].as_slice());
    assert(oui_of(mac@) == Some(oui@)) by {
        assert(views(octets@)[0] == octets@[0]@);
        assert(views(octets@)[1] == octets@[1]@);
        assert(views(octets@)[2] == octets@[2]@);
        assert(oui@ =~= oui_of(mac@)->0);
    }
    let low = lowered(oui.as_slice());
    let mut i: usize = 0;
    while i < ouis.len()
        invariant
            i <= ouis.len(),
            oui_of(mac@) == Some(oui@),
            low@ == lower_text(oui@),
            forall|k: int| 0 <= k < i ==> lower_text((#[trigger] ouis@[k])@) != low@,
        decreases ouis.len() - i,
    {
        let candidate = chars_of(ouis[i]);
        let candidate = lowered(candidate.as_slice());
        if same_chars(candidate.as_slice(), low.as_slice()) {
            assert(lower_text(ouis@[i as int]@) == low@);
            return true;
        }
        i = i + 1;
    }
    false
}

/// The word behind the first `at`.
pub open spec fn word_after_at(list: Seq<Seq<char>>) -> Option<Seq<char>>
    decreases list.len(),
{
    if list.len() == 0 {
        None
    } else if list[0] == "at"@ {
        if list.len() > 1 {
            Some(list[1])
        } else {
            None
        }
    } else {
        word_after_at(list.skip(1))
    }
}

/// What a line of the ARP table says: an address in brackets, and behind the
/// word `at` the hardware address that it belongs to.
pub open spec fn arp_entry(line: Seq<char>) -> Option<(Ipv4Addr, Seq<char>)> {
    match find_from(line, '(', 0) {
        None => None,
        Some(open) => match find_from(line, ')', open) {
            None => None,
            Some(close) => match (
                address(line.subrange(open + 1, close)),
                word_after_at(words(line)),
            ) {
                (Some(ip), Some(mac)) => Some((ip, mac)),
                _ => None,
            },
        },
    }
}

/// What the lines say that say something, in order.
pub open spec fn arp_entries(list: Seq<Seq<char>>) -> Seq<(Ipv4Addr, Seq<char>)>
    decreases list.len(),
{
    if list.len() == 0 {
        Seq::empty()
    } else {
        let before = arp_entries(list.drop_last());
        match arp_entry(list.last()) {
            Some(entry) => before.push(entry),
            None => before,
        }
    }
}

/// Entries with their texts as character sequences.
pub open spec fn entry_views(entries: Seq<(Ipv4Addr, String)>) -> Seq<(Ipv4Addr, Seq<char>)> {
    entries.map_values(|entry: (Ipv4Addr, String)| (entry.0, entry.1@))
}

fn find_at(list: &[Vec<char>]) -> (r: Option<String>)
    ensures
        match r {
            Some(mac) => word_after_at(views(list@)) == Some(mac@),
            None => word_after_at(views(list@)) is None,
        },
{
    let at = chars_of("at");
    let ghost all = views(list@);
    let mut i: usize = 0;
    assert(all.skip(0) =~= all);
    while i < list.len()
        invariant
            i <= list.len(),
            at@ == "at"@,
            all == views(list@),
            word_after_at(all) == word_after_at(all.skip(i as int)),
        decreases list.len() - i,
    {
        if same_chars(list[i].as_slice(), at.as_slice()) {
            if i + 1 < list.len() {
                return Some(text_of(list[i + 1].as_slice()));
            }
            return None;
        }
        assert(all.skip(i as int).skip(1) =~= all.skip(i + 1));
        i = i + 1;
    }
    None
}

fn read_arp_line(line: &[char]) -> (r: Option<(Ipv4Addr, String)>)
    ensures
        match r {
            Some(entry) => arp_entry(line@) == Some((entry.0, entry.1@)),
            None => arp_entry(line@) is None,
        },
{
    let open: usize = match position_from(line, '(', 0) {
        Some(open) => open,
        None => return None,
    };
    let close: usize = match position_from(line, ')', open) {
        Some(close) => close,
        None => return None,
    };
    assert(open < close);
    let inside = copy_between(line, open + 1, close);
    let ip = match Ipv4Addr::parse_chars(inside.as_slice()) {
        Some(ip) => ip,
        None => return None,
    };
    let list = words_of(line);
    match find_at(list.as_slice()) {
        Some(mac) => Some((ip, mac)),
        None => None,
    }
}

/// The addresses and hardware addresses that the output of `arp -a` lists.
/// Lines that lack one of the two are passed over.
pub fn parse_arp_table(text: &str) -> (r: Vec<(Ipv4Addr, String)>)
    ensures
        entry_views(r@) == arp_entries(lines(text@)),
{
    let cs = chars_of(text);
    let list = lines_of(cs.as_slice());
    let ghost all = views(list@);
    let mut out: Vec<(Ipv4Addr, String)> = Vec::new();
    let mut i: usize = 0;
    assert(entry_views(out@) =~= arp_entries(all.take(0)));
    while i < list.len()
        invariant
            i <= list.len(),
            all == views(list@),
            entry_views(out@) == arp_entries(all.take(i as int)),
        decreases list.len() - i,
    {
        assert(all.take(i + 1).drop_last() =~= all.take(i as int));
        assert(all.take(i + 1).last() == list@[i as int]@);
        let ghost before = entry_views(out@);
        if let Some(entry) = read_arp_line(list[i].as_slice()) {
            let ghost shown = (entry.0, entry.1@);
            out.push(entry);
            assert(entry_views(out@) =~= before.push(shown));
        }
        i = i + 1;
    }
    assert(all.take(all.len() as int) =~= all);
    out
}

/// The entries whose hardware address begins with one of `ouis`, in order.
pub open spec fn matching(
    entries: Seq<(Ipv4Addr, Seq<char>)>,
    ouis: Seq<&str>,
) -> Seq<(Ipv4Addr, Seq<char>)>
    decreases entries.len(),
{
    if entries.len() == 0 {
        Seq::empty()
    } else {
        let before = matching(entries.drop_last(), ouis);
        if oui_matches(entries.last().1, ouis) {
            before.push(entries.last())
        } else {
            before
        }
    }
}

/// Whether `found` are the adapters that `entries` stand for.
pub open spec fn found_by_mac(found: Seq<Found>, entries: Seq<(Ipv4Addr, Seq<char>)>) -> bool {
    &&& found.len() == entries.len()
    &&& forall|i: int|
        0 <= i < found.len() ==> {
            let f = #[trigger] found[i];
            f.ip == entries[i].0 && f.server is None && f.mac is Some && f.mac->0@ == entries[i].1
        }
}

/// The adapters among those that the output of `arp -a` lists: the ones whose
/// hardware address begins with one of `ouis`.
pub fn mac_filter(text: &str, ouis: &[&str]) -> (r: Vec<Found>)
    ensures
        found_by_mac(r@, matching(arp_entries(lines(text@)), ouis@)),
{
    let entries = parse_arp_table(text);
    let ghost all = entry_views(entries@);
    let mut out: Vec<Found> = Vec::new();
    let mut i: usize = 0;
    assert(all.take(0) =~= Seq::<(Ipv4Addr, Seq<char>)>::empty());
    while i < entries.len()
        invariant
            i <= entries.len(),
            all == entry_views(entries@),
            found_by_mac(out@, matching(all.take(i as int), ouis@)),
        decreases entries.len() - i,
    {
        assert(all.take(i + 1).drop_last() =~= all.take(i as int));
        if mac_oui_matches(entries[i].1.as_str(), ouis) {
            let mac = entries[i].1.as_str().to_owned();
            out.push(Found { ip: entries[i].0, server: None, mac: Some(mac) });
        }
        i = i + 1;
    }
    assert(all.take(all.len() as int) =~= all);
    out
}

/// The case of a `Server` header does not matter.
pub proof fn law_case_does_not_matter(header: Seq<char>)
    ensures
        names_moca_server(lower_text(header)) == names_moca_server(header),
{
    assert(lower_text(lower_text(header)) =~= lower_text(header));
}

/// Whether `c` stands between octets.
pub open spec fn separates(c: char) -> bool {
    c == '-' || c == ':'
}

/// Whether two characters of a hardware address mean the same: both stand
/// between octets, or they are one letter in whatever case.
pub open spec fn means_same(a: char, b: char) -> bool {
    separates(a) && separates(b) || lower(a) == lower(b)
}

/// Addresses whose first three octets come out the same in full have the same
/// maker.
proof fn lemma_same_maker(a: Seq<char>, b: Seq<char>)
    requires
        octets(a).len() >= 3 <==> octets(b).len() >= 3,
        octets(a).len() >= 3 ==> forall|i: int|
            0 <= i < 3 ==> full_octet(#[trigger] octets(a)[i]) == full_octet(octets(b)[i]),
    ensures
        oui_of(a) == oui_of(b),
{
    if octets(a).len() >= 3 {
        assert(full_octet(octets(a)[0]) == full_octet(octets(b)[0]));
        assert(full_octet(octets(a)[1]) == full_octet(octets(b)[1]));
        assert(full_octet(octets(a)[2]) == full_octet(octets(b)[2]));
    }
}

proof fn lemma_means_same(a: Seq<char>, b: Seq<char>)
    requires
        a.len() == b.len(),
        forall|i: int| 0 <= i < a.len() ==> means_same(#[trigger] a[i], b[i]),
    ensures
        octets(a).len() == octets(b).len(),
        octets(a).len() > 0,
        forall|i: int|
            0 <= i < octets(a).len() ==> lower_text(#[trigger] octets(a)[i]) == lower_text(
                octets(b)[i],
            ),
    decreases a.len(),
{
    if a.len() > 0 {
        let n = a.len() - 1;
        let before = octets(a.drop_last());
        let other = octets(b.drop_last());
        assert forall|i: int| 0 <= i < n implies means_same(
            #[trigger] a.drop_last()[i],
            b.drop_last()[i],
        ) by {
            assert(means_same(a[i], b[i]));
        }
        lemma_means_same(a.drop_last(), b.drop_last());
        assert(means_same(a[n], b[n]));
        assert(separates(a[n]) == separates(b[n]));
        if !separates(a[n]) {
            assert(lower_text(before.last()) == lower_text(other.last()));
            assert(lower_text(before.last().push(a[n])) =~= lower_text(before.last()).push(
                lower(a[n]),
            ));
            assert(lower_text(other.last().push(b[n])) =~= lower_text(other.last()).push(
                lower(b[n]),
            ));
        }
        assert forall|i: int| 0 <= i < octets(a).len() implies lower_text(#[trigger] octets(a)[i])
            == lower_text(octets(b)[i]) by {
            if i < before.len() - 1 || separates(a[n]) && i < before.len() {
                assert(lower_text(before[i]) == lower_text(other[i]));
            }
        }
    }
}

/// Colons and dashes are alike in a hardware address, and the case of its letters
/// does not matter.
pub proof fn law_separators_and_case(a: Seq<char>, b: Seq<char>, ouis: Seq<&str>)
    requires
        a.len() == b.len(),
        forall|i: int| 0 <= i < a.len() ==> means_same(#[trigger] a[i], b[i]),
    ensures
        oui_matches(a, ouis) == oui_matches(b, ouis),
{
    lemma_means_same(a, b);
    assert forall|i: int| 0 <= i < octets(a).len() implies full_octet(#[trigger] octets(a)[i])
        == full_octet(octets(b)[i]) by {
        assert(lower_text(octets(a)[i]) == lower_text(octets(b)[i]));
        assert(lower_text(octets(a)[i]).len() == octets(a)[i].len());
    }
    lemma_same_maker(a, b);
}

/// Whether an octet of one digit stands at `p`.
pub open spec fn lone_digit(mac: Seq<char>, p: int) -> bool {
    &&& 0 <= p < mac.len()
    &&& !separates(mac[p])
    &&& p == 0 || separates(mac[p - 1])
    &&& p + 1 == mac.len() || separates(mac[p + 1])
}

/// An octet between `before` and `after` is one of the octets of the whole, and
/// stands at `place`.
proof fn lemma_octet_within(before: Seq<char>, octet: Seq<char>, after: Seq<char>) -> (place: int)
    requires
        forall|i: int| 0 <= i < octet.len() ==> !separates(#[trigger] octet[i]),
        before.len() == 0 || separates(before.last()),
        after.len() == 0 || separates(after[0]),
    ensures
        ({
            let head = if before.len() == 0 {
                Seq::empty()
            } else {
                octets(before.drop_last())
            };
            let tail = if after.len() == 0 {
                Seq::empty()
            } else {
                octets(after.skip(1))
            };
            &&& octets(before + octet + after) == head.push(octet) + tail
            &&& place == head.len()
        }),
{
    let cut = Cut::AtEither('-', ':').pred();
    assert forall|i: int| 0 <= i < octet.len() implies !cut(#[trigger] octet[i]) by {
        assert(!separates(octet[i]));
    }
    lemma_split_whole(octet, cut);
    let head = if before.len() == 0 {
        Seq::empty()
    } else {
        octets(before.drop_last())
    };
    let tail = if after.len() == 0 {
        Seq::empty()
    } else {
        octets(after.skip(1))
    };
    let front = before + octet;
    if before.len() == 0 {
        assert(front =~= octet);
        assert(octets(front) =~= head.push(octet));
    } else {
        lemma_split_join(before.drop_last(), before.last(), octet, cut);
        assert(before.drop_last().push(before.last()) + octet =~= front);
        assert(octets(front) =~= head.push(octet));
    }
    if after.len() == 0 {
        assert(before + octet + after =~= front);
        assert(octets(before + octet + after) =~= head.push(octet) + tail);
    } else {
        lemma_split_join(front, after[0], after.skip(1), cut);
        assert(front.push(after[0]) + after.skip(1) =~= before + octet + after);
    }
    head.len() as int
}

/// An octet of one digit may have a leading zero or not.
pub proof fn law_leading_zeros(mac: Seq<char>, p: int, ouis: Seq<&str>)
    requires
        lone_digit(mac, p),
    ensures
        oui_matches(mac.insert(p, '0'), ouis) == oui_matches(mac, ouis),
{
    let before = mac.take(p);
    let after = mac.skip(p + 1);
    let short = seq![mac[p]];
    let long = seq!['0', mac[p]];
    assert(before + short + after =~= mac);
    assert(before + long + after =~= mac.insert(p, '0'));
    let k = lemma_octet_within(before, short, after);
    let j = lemma_octet_within(before, long, after);
    assert(full_octet(short) =~= full_octet(long));
    let a = octets(mac);
    let b = octets(mac.insert(p, '0'));
    assert(a.len() == b.len());
    assert forall|i: int| 0 <= i < a.len() implies full_octet(#[trigger] a[i]) == full_octet(
        b[i],
    ) by {
        if i == k {
            assert(a[i] == short && b[i] == long);
        } else {
            assert(a[i] == b[i]);
        }
    }
    lemma_same_maker(mac, mac.insert(p, '0'));
}

/// What follows the third octet does not matter: it may be anything, or be left
/// out.
pub proof fn law_later_octets_do_not_matter(
    mac: Seq<char>,
    c: char,
    rest: Seq<char>,
    ouis: Seq<&str>,
)
    requires
        octets(mac).len() >= 3,
        separates(c),
    ensures
        oui_matches(mac.push(c) + rest, ouis) == oui_matches(mac, ouis),
{
    lemma_split_join(mac, c, rest, Cut::AtEither('-', ':').pred());
    lemma_same_maker(mac, mac.push(c) + rest);
}

/// The case of the makers listed does not matter.
pub proof fn law_case_of_makers(mac: Seq<char>, a: Seq<&str>, b: Seq<&str>)
    requires
        a.len() == b.len(),
        forall|i: int|
            0 <= i < a.len() ==> lower_text((#[trigger] a[i])@) == lower_text((#[trigger] b[i])@),
    ensures
        oui_matches(mac, a) == oui_matches(mac, b),
{
    if let Some(oui) = oui_of(mac) {
        if oui_matches(mac, a) {
            let i = choose|i: int|
                0 <= i < a.len() && lower_text((#[trigger] a[i])@) == lower_text(oui);
            assert(lower_text(a[i]@) == lower_text(b[i]@));
        }
        if oui_matches(mac, b) {
            let i = choose|i: int|
                0 <= i < b.len() && lower_text((#[trigger] b[i])@) == lower_text(oui);
            assert(lower_text(a[i]@) == lower_text(b[i]@));
        }
    }
}

/// An address of fewer than three octets has no maker, and no address has one
/// where none is listed.
pub proof fn law_no_maker(mac: Seq<char>, ouis: Seq<&str>)
    ensures
        octets(mac).len() < 3 ==> !oui_matches(mac, ouis),
        ouis.len() == 0 ==> !oui_matches(mac, ouis),
{
}

} // verus!
