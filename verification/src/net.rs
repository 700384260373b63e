//! IPv4 addresses.

use crate::text::{
    chars_of, decimal, decimal_text, lemma_decimal_reads_back, lemma_split_last, lemma_split_whole,
    number, parse_number, pieces, split, views, Cut,
};
use vstd::prelude::*;

verus! {

/// An IPv4 address by its four octets.
#[derive(Debug, Clone, Copy, PartialEq, Eq, Structural)]
pub struct Ipv4Addr {
    pub a: u8,
    pub b: u8,
    pub c: u8,
    pub d: u8,
}

/// Byte `k` of a word, counted from its most significant end.
pub open spec fn byte_of(w: u32, k: u32) -> u8 {
    ((w >> ((24 - 8 * k) as u32)) & 0xff) as u8
}

/// Byte `k` of a word, counted from its most significant end.
pub fn byte_at(w: u32, k: u32) -> (r: u8)
    requires
        k < 4,
    ensures
        r == byte_of(w, k),
{
    ((w >> (24 - 8 * k)) & 0xff) as u8
}

/// The number an octet of dotted notation spells: up to three digits without a
/// leading zero, at most 255.
pub open spec fn octet(s: Seq<char>) -> Option<u8> {
    if 1 <= s.len() <= 3 && s[0] != '+' && (s[0] == '0' ==> s.len() == 1) {
        match number(s, 10) {
            Ok(n) if n <= 255 => Some(n as u8),
            _ => None,
        }
    } else {
        None
    }
}

/// The address that `s` writes in dotted decimal notation.
pub open spec fn address(s: Seq<char>) -> Option<Ipv4Addr> {
    let parts = split(s, Cut::At('.').pred());
    if parts.len() != 4 {
        None
    } else {
        match (octet(parts[0]), octet(parts[1]), octet(parts[2]), octet(parts[3])) {
            (Some(a), Some(b), Some(c), Some(d)) => Some(Ipv4Addr { a, b, c, d }),
            _ => None,
        }
    }
}

/// The address with the number `n`.
pub open spec fn address_of(n: nat) -> Ipv4Addr {
    Ipv4Addr {
        a: (n / 0x100_0000 % 0x100) as u8,
        b: (n / 0x1_0000 % 0x100) as u8,
        c: (n / 0x100 % 0x100) as u8,
        d: (n % 0x100) as u8,
    }
}

fn parse_octet(cs: &[char]) -> (r: Option<u8>)
    ensures
        r == octet(cs@),
{
    if cs.len() < 1 || cs.len() > 3 || cs[0] == '+' || (cs[0] == '0' && cs.len() != 1) {
        return None;
    }
    match parse_number(cs, 10) {
        Ok(n) => if n <= 255 {
            Some(n as u8)
        } else {
            None
        },
        Err(_) => None,
    }
}

impl Ipv4Addr {
    /// The address as one number, its first octet most significant.
    pub open spec fn number(self) -> nat {
        self.a as nat * 0x100_0000 + self.b as nat * 0x1_0000 + self.c as nat * 0x100
            + self.d as nat
    }

    /// The address in dotted decimal notation.
    pub open spec fn text(self) -> Seq<char> {
        decimal(self.a as nat) + "."@ + decimal(self.b as nat) + "."@ + decimal(self.c as nat)
            + "."@ + decimal(self.d as nat)
    }

    /// The address whose octets are the bytes of `w`.
    pub fn from_word(w: u32) -> (r: Ipv4Addr)
        ensures
            r == (Ipv4Addr {
                a: byte_of(w, 0),
                b: byte_of(w, 1),
                c: byte_of(w, 2),
                d: byte_of(w, 3),
            }),
            r.number() == w,
    {
        let r = Ipv4Addr {
            a: byte_at(w, 0),
            b: byte_at(w, 1),
            c: byte_at(w, 2),
            d: byte_at(w, 3),
        };
        assert(((w >> 24) & 0xff) as u8 * 0x100_0000 + ((w >> 16) & 0xff) as u8 * 0x1_0000 + ((w
            >> 8) & 0xff) as u8 * 0x100 + ((w >> 0) & 0xff) as u8 == w) by (bit_vector);
        r
    }

    /// The address as one number.
    pub fn to_word(&self) -> (r: u32)
        ensures
            r == self.number(),
    {
        self.a as u32 * 0x100_0000 + self.b as u32 * 0x1_0000 + self.c as u32 * 0x100
            + self.d as u32
    }

    pub fn to_string(&self) -> (r: String)
        ensures
            r@ == self.text(),
    {
        let b = decimal_text(self.b as u64);
        let c = decimal_text(self.c as u64);
        let d = decimal_text(self.d as u64);
        decimal_text(self.a as u64).concat(".").concat(b.as_str()).concat(".").concat(
            c.as_str(),
        ).concat(".").concat(d.as_str())
    }

    /// Reads an address in dotted decimal notation.
    pub fn parse(s: &str) -> (r: Option<Ipv4Addr>)
        ensures
            r == address(s@),
    {
        let cs = chars_of(s);
        Ipv4Addr::parse_chars(cs.as_slice())
    }

    /// Reads an address in dotted decimal notation.
    pub fn parse_chars(cs: &[char]) -> (r: Option<Ipv4Addr>)
        ensures
            r == address(cs@),
    {
        let parts = pieces(cs, Cut::At('.'));
        assert(views(parts@).len() == parts@.len());
        if parts.len() != 4 {
            return None;
        }
        match (
            parse_octet(parts[0].as_slice()),
            parse_octet(parts[1].as_slice()),
            parse_octet(parts[2].as_slice()),
            parse_octet(parts[3].as_slice()),
        ) {
            (Some(a), Some(b), Some(c), Some(d)) => Some(Ipv4Addr { a, b, c, d }),
            _ => None,
        }
    }
}

/// An address is the one with its number.
pub proof fn lemma_address_of(x: Ipv4Addr)
    ensures
        address_of(x.number()) == x,
        x.number() < 0x1_0000_0000,
{
    lemma_octets(x);
}

/// Distinct addresses have distinct numbers.
pub proof fn law_distinct_numbers(x: Ipv4Addr, y: Ipv4Addr)
    ensures
        x.number() == y.number() ==> x == y,
{
    lemma_octets(x);
    lemma_octets(y);
}

proof fn lemma_octets(x: Ipv4Addr)
    ensures
        x.d as nat == x.number() % 0x100,
        x.c as nat == x.number() / 0x100 % 0x100,
        x.b as nat == x.number() / 0x1_0000 % 0x100,
        x.a as nat == x.number() / 0x100_0000,
{
    let n = x.number();
    let high = x.a as nat * 0x100 + x.b as nat;
    let upper = high * 0x100 + x.c as nat;
    assert(n == upper * 0x100 + x.d as nat);
    assert(n / 0x100 == upper);
    assert(upper / 0x100 == high);
    assert(n / 0x1_0000 == high);
    assert(n / 0x100_0000 == x.a as nat);
}

proof fn lemma_octet_reads_back(n: u8)
    ensures
        octet(decimal(n as nat)) == Some(n),
        forall|i: int|
            0 <= i < decimal(n as nat).len() ==> !Cut::At('.').pred()(
                #[trigger] decimal(n as nat)[i],
            ),
{
    lemma_decimal_reads_back(n as nat);
    reveal_with_fuel(decimal, 4);
}

/// An address reads back as it is written.
pub proof fn law_address_reads_back(ip: Ipv4Addr)
    ensures
        address(ip.text()) == Some(ip),
{
    reveal_strlit(".");
    let cut = Cut::At('.').pred();
    let a = decimal(ip.a as nat);
    let b = decimal(ip.b as nat);
    let c = decimal(ip.c as nat);
    let d = decimal(ip.d as nat);
    lemma_octet_reads_back(ip.a);
    lemma_octet_reads_back(ip.b);
    lemma_octet_reads_back(ip.c);
    lemma_octet_reads_back(ip.d);
    lemma_split_whole(a, cut);
    let ab = a.push('.') + b;
    let abc = ab.push('.') + c;
    let abcd = abc.push('.') + d;
    assert(ip.text() =~= abcd);
    lemma_split_last(a, '.', b, cut);
    lemma_split_last(ab, '.', c, cut);
    lemma_split_last(abc, '.', d, cut);
    assert(split(abcd, cut) =~= seq![a, b, c, d]);
}

} // verus!
