//! How texts are cut, trimmed, compared and read as numbers.

use crate::error::ErrorView;
use crate::ms::{without_prefix, word_of, words_of};
use crate::net::{address, octet, Ipv4Addr};
use crate::text::{
    contains_text, debug_text, decimal, digit, digit_value, digits_value, find_from, is_white_space,
    lemma_split_join, lemma_split_some, lemma_split_whole, lines, lower, lower_text, nonempty,
    number, occurs_at, split, trim, trim_end, trim_start, without_return, words, Cut, NumberError,
};
use vstd::prelude::*;

verus! {

/// White space is the tab, the line ends, the space, and Unicode's other spaces.
pub proof fn law_white_space(c: char)
    ensures
        is_white_space(c) <==> (c == '\t' || c == '\n' || c == '\u{b}' || c == '\u{c}' || c == '\r'
            || c == ' ' || c == '\u{85}' || c == '\u{a0}' || c == '\u{1680}' || (c >= '\u{2000}' && c
            <= '\u{200a}') || c == '\u{2028}' || c == '\u{2029}' || c == '\u{202f}' || c
            == '\u{205f}' || c == '\u{3000}'),
{
}

/// Whether a text is white space alone.
pub open spec fn all_white(s: Seq<char>) -> bool {
    forall|i: int| 0 <= i < s.len() ==> is_white_space(#[trigger] s[i])
}

/// Whether a text has no white space at its ends.
pub open spec fn tight(s: Seq<char>) -> bool {
    s.len() > 0 ==> !is_white_space(s[0]) && !is_white_space(s.last())
}

proof fn lemma_trim_start(a: Seq<char>, s: Seq<char>)
    requires
        all_white(a),
        s.len() > 0 ==> !is_white_space(s[0]),
    ensures
        trim_start(a + s) == s,
    decreases a.len(),
{
    if a.len() == 0 {
        assert(a + s =~= s);
    } else {
        assert(is_white_space(a[0]));
        assert((a + s)[0] == a[0]);
        assert((a + s).skip(1) =~= a.skip(1) + s);
        assert forall|i: int| 0 <= i < a.skip(1).len() implies is_white_space(
            #[trigger] a.skip(1)[i],
        ) by {
            assert(is_white_space(a[i + 1]));
        }
        lemma_trim_start(a.skip(1), s);
    }
}

proof fn lemma_trim_end(s: Seq<char>, b: Seq<char>)
    requires
        all_white(b),
        s.len() > 0 ==> !is_white_space(s.last()),
    ensures
        trim_end(s + b) == s,
    decreases b.len(),
{
    if b.len() == 0 {
        assert(s + b =~= s);
    } else {
        assert(is_white_space(b[b.len() - 1]));
        assert((s + b).last() == b.last());
        assert((s + b).drop_last() =~= s + b.drop_last());
        assert forall|i: int| 0 <= i < b.drop_last().len() implies is_white_space(
            #[trigger] b.drop_last()[i],
        ) by {
            assert(is_white_space(b[i]));
        }
        lemma_trim_end(s, b.drop_last());
    }
}

/// A text is trimmed of the white space around it and of nothing else.
pub proof fn law_trim(a: Seq<char>, s: Seq<char>, b: Seq<char>)
    requires
        all_white(a),
        all_white(b),
        tight(s),
    ensures
        trim(a + s + b) == s,
{
    if s.len() == 0 {
        let ab = a + s + b;
        assert(all_white(ab));
        assert(ab + s =~= ab);
        lemma_trim_start(ab, s);
        assert(s + s =~= s);
        lemma_trim_end(s, s);
    } else {
        assert(a + s + b =~= a + (s + b));
        assert((s + b)[0] == s[0]);
        lemma_trim_start(a, s + b);
        lemma_trim_end(s, b);
    }
}

/// The pieces of a text with `c` between them.
pub open spec fn joined(parts: Seq<Seq<char>>, c: char) -> Seq<char>
    decreases parts.len(),
{
    if parts.len() == 0 {
        Seq::empty()
    } else if parts.len() == 1 {
        parts[0]
    } else {
        joined(parts.drop_last(), c).push(c) + parts.last()
    }
}

/// A text cut at a character is the pieces with that character between them, and none
/// of them holds it.
pub proof fn law_pieces_join_back(s: Seq<char>, c: char)
    ensures
        split(s, Cut::At(c).pred()).len() > 0,
        joined(split(s, Cut::At(c).pred()), c) == s,
        forall|i: int|
            0 <= i < split(s, Cut::At(c).pred()).len() ==> !(#[trigger] split(
                s,
                Cut::At(c).pred(),
            )[i]).contains(c),
    decreases s.len(),
{
    let cut = Cut::At(c).pred();
    let parts = split(s, cut);
    if s.len() == 0 {
        assert(parts =~= seq![Seq::<char>::empty()]);
        assert(s =~= Seq::empty());
    } else {
        let before = split(s.drop_last(), cut);
        law_pieces_join_back(s.drop_last(), c);
        assert(s =~= s.drop_last().push(s.last()));
        if cut(s.last()) {
            assert(parts == before.push(Seq::empty()));
            assert(parts.drop_last() =~= before);
            assert(joined(parts, c) =~= joined(before, c).push(c));
        } else {
            let last = before.last().push(s.last());
            assert(parts == before.drop_last().push(last));
            assert(parts.drop_last() =~= before.drop_last());
            if before.len() == 1 {
                assert(joined(parts, c) =~= joined(before, c).push(s.last()));
            } else {
                assert(joined(parts, c) =~= joined(before, c).push(s.last()));
            }
            assert forall|i: int| 0 <= i < parts.len() implies !(#[trigger] parts[i]).contains(
                c,
            ) by {
                if i < before.len() - 1 {
                    assert(parts[i] == before[i]);
                } else {
                    assert(parts[i] == last);
                    let piece = before[before.len() - 1];
                    assert(!piece.contains(c));
                    if last.contains(c) {
                        let k = choose|k: int| 0 <= k < last.len() && last[k] == c;
                        assert(k < piece.len());
                        assert(piece[k] == c);
                    }
                }
            }
        }
    }
}

proof fn lemma_nonempty_append(a: Seq<Seq<char>>, b: Seq<Seq<char>>)
    ensures
        nonempty(a + b) == nonempty(a) + nonempty(b),
    decreases b.len(),
{
    if b.len() == 0 {
        assert(a + b =~= a);
        assert(nonempty(a) + nonempty(b) =~= nonempty(a));
    } else {
        assert((a + b).drop_last() =~= a + b.drop_last());
        lemma_nonempty_append(a, b.drop_last());
        assert(nonempty(a + b) =~= nonempty(a) + nonempty(b));
    }
}

/// White space parts the words before it from those behind it; a text without white
/// space is one word, where it is not empty.
pub proof fn law_words(a: Seq<char>, c: char, b: Seq<char>)
    ensures
        is_white_space(c) ==> words(a.push(c) + b) == words(a) + words(b),
        (forall|i: int| 0 <= i < a.len() ==> !is_white_space(#[trigger] a[i])) ==> words(a) == if a.len()
            > 0 {
            seq![a]
        } else {
            Seq::empty()
        },
{
    let cut = Cut::AtWhiteSpace.pred();
    if is_white_space(c) {
        assert(cut(c));
        lemma_split_join(a, c, b, cut);
        lemma_nonempty_append(split(a, cut), split(b, cut));
    }
    if forall|i: int| 0 <= i < a.len() ==> !is_white_space(#[trigger] a[i]) {
        assert forall|i: int| 0 <= i < a.len() implies !cut(#[trigger] a[i]) by {
            assert(!is_white_space(a[i]));
        }
        lemma_split_whole(a, cut);
        let one = seq![a];
        assert(one.drop_last() =~= Seq::empty());
        assert(nonempty(one.drop_last()) =~= Seq::empty());
        if a.len() > 0 {
            assert(nonempty(one) =~= one);
        }
    }
}

/// A line feed ends a line, and takes a carriage return before it with it; what follows
/// the last one is a line where it is not empty.
pub proof fn law_lines(a: Seq<char>, b: Seq<char>)
    requires
        !a.contains('\n'),
    ensures
        lines(a.push('\n') + b) == seq![a] + lines(b) || (a.len() > 0 && a.last() == '\r'),
        lines(a.push('\r').push('\n') + b) == seq![a] + lines(b),
        lines(a) == if a.len() > 0 {
            seq![a]
        } else {
            Seq::empty()
        },
{
    let cut = Cut::At('\n').pred();
    assert forall|i: int| 0 <= i < a.len() implies !cut(#[trigger] a[i]) by {
        assert(a.contains(a[i]));
    }
    lemma_split_whole(a, cut);
    assert(seq![a].drop_last() =~= Seq::empty());
    assert(lines(a) =~= if a.len() > 0 {
        seq![a]
    } else {
        Seq::empty()
    });
    lemma_lines_step(a, b);
    let r = a.push('\r');
    assert(!r.contains('\n')) by {
        if r.contains('\n') {
            let i = choose|i: int| 0 <= i < r.len() && r[i] == '\n';
            assert(i < a.len());
            assert(a[i] == '\n');
        }
    }
    lemma_lines_step(r, b);
    assert(r.drop_last() =~= a);
}

proof fn lemma_lines_step(a: Seq<char>, b: Seq<char>)
    requires
        !a.contains('\n'),
    ensures
        lines(a.push('\n') + b) == seq![without_return(a)] + lines(b),
{
    let cut = Cut::At('\n').pred();
    assert forall|i: int| 0 <= i < a.len() implies !cut(#[trigger] a[i]) by {
        assert(a.contains(a[i]));
    }
    lemma_split_whole(a, cut);
    lemma_split_join(a, '\n', b, cut);
    lemma_split_some(b, cut);
    let rest = split(b, cut);
    let all = split(a.push('\n') + b, cut);
    assert(all =~= seq![a] + rest);
    assert(all.drop_last() =~= seq![a] + rest.drop_last());
    assert(all.last() == rest.last());
    assert(lines(a.push('\n') + b) =~= seq![without_return(a)] + lines(b));
}

/// The capital letters become the small ones; every other character stays.
pub proof fn law_lower(s: Seq<char>, k: int)
    requires
        0 <= k < s.len(),
    ensures
        lower_text(s).len() == s.len(),
        65 <= s[k] as u32 <= 90 ==> lower_text(s)[k] as u32 == s[k] as u32 + 32,
        !(65 <= s[k] as u32 <= 90) ==> lower_text(s)[k] == s[k],
        lower_text(lower_text(s)) == lower_text(s),
{
    assert forall|i: int| 0 <= i < s.len() implies lower(lower(#[trigger] s[i])) == lower(s[i]) by {
    }
    assert(lower_text(lower_text(s)) =~= lower_text(s));
}

/// A text holds a part exactly where it is that part with something, or nothing,
/// around it.
pub proof fn law_contains(s: Seq<char>, part: Seq<char>)
    ensures
        contains_text(s, part) <==> exists|a: Seq<char>, b: Seq<char>|
            s == #[trigger] (a + part + b),
{
    if contains_text(s, part) {
        let at = choose|at: int| occurs_at(s, part, at);
        let a = s.take(at);
        let b = s.skip(at + part.len());
        assert(s =~= a + part + b) by {
            assert forall|i: int| 0 <= i < s.len() implies s[i] == (a + part + b)[i] by {
                if at <= i < at + part.len() {
                    assert(s.subrange(at, at + part.len())[i - at] == part[i - at]);
                }
            }
        }
    }
    if exists|a: Seq<char>, b: Seq<char>| s == #[trigger] (a + part + b) {
        let (a, b) = choose|a: Seq<char>, b: Seq<char>| s == #[trigger] (a + part + b);
        assert(s.subrange(a.len() as int, a.len() as int + part.len()) =~= part);
        assert(occurs_at(s, part, a.len() as int));
    }
}

/// A character is found where it first stands behind a position.
pub proof fn law_found_first(s: Seq<char>, c: char, from: int)
    requires
        0 <= from,
    ensures
        match find_from(s, c, from) {
            Some(at) => from <= at < s.len() && s[at] == c && forall|i: int|
                from <= i < at ==> (#[trigger] s[i]) != c,
            None => forall|i: int| from <= i < s.len() ==> (#[trigger] s[i]) != c,
        },
    decreases s.len() - from,
{
    if from < s.len() && s[from] != c {
        law_found_first(s, c, from + 1);
    }
}

/// The digits in order, small and capital.
pub open spec fn small_digits() -> Seq<char> {
    seq!['0', '1', '2', '3', '4', '5', '6', '7', '8', '9', 'a', 'b', 'c', 'd', 'e', 'f']
}

pub open spec fn capital_digits() -> Seq<char> {
    seq!['0', '1', '2', '3', '4', '5', '6', '7', '8', '9', 'A', 'B', 'C', 'D', 'E', 'F']
}

/// A digit is worth its place among the digits, in small letters as in capitals.
pub proof fn law_digits(c: char, k: nat)
    ensures
        digit_value(c) == Some(k) <==> k < 16 && (c == small_digits()[k as int] || c
            == capital_digits()[k as int]),
{
}

/// Reads digits from the left, `so_far` being what the digits before them are worth.
pub open spec fn worth(so_far: nat, digits: Seq<char>, radix: nat) -> nat
    decreases digits.len(),
{
    if digits.len() == 0 {
        so_far
    } else {
        worth(so_far * radix + digit_value(digits[0])->0, digits.skip(1), radix)
    }
}

/// Whether a text is digits of a base.
pub open spec fn all_digits(s: Seq<char>, radix: nat) -> bool {
    forall|i: int|
        0 <= i < s.len() ==> (digit_value(#[trigger] s[i]) is Some && digit_value(s[i])->0 < radix)
}

proof fn lemma_worth_push(so_far: nat, s: Seq<char>, radix: nat)
    requires
        s.len() > 0,
    ensures
        worth(so_far, s, radix) == worth(so_far, s.drop_last(), radix) * radix + digit_value(
            s.last(),
        )->0,
    decreases s.len(),
{
    if s.len() == 1 {
        assert(s.drop_last() =~= Seq::empty());
        assert(s.skip(1) =~= Seq::empty());
        assert(worth(so_far, s.drop_last(), radix) == so_far);
        assert(worth(so_far * radix + digit_value(s[0])->0, s.skip(1), radix) == so_far * radix
            + digit_value(s[0])->0);
    } else {
        let next = so_far * radix + digit_value(s[0])->0;
        lemma_worth_push(next, s.skip(1), radix);
        assert(s.skip(1).drop_last() =~= s.drop_last().skip(1));
        assert(s.drop_last()[0] == s[0]);
        assert(s.skip(1).last() == s.last());
    }
}

proof fn lemma_digits_worth(s: Seq<char>, radix: nat)
    requires
        radix >= 1,
    ensures
        all_digits(s, radix) && worth(0, s, radix) <= u32::MAX ==> digits_value(s, radix) == Ok::<
            nat,
            NumberError,
        >(worth(0, s, radix)),
        digits_value(s, radix) matches Ok(n) ==> all_digits(s, radix) && n == worth(0, s, radix)
            && n <= u32::MAX,
    decreases s.len(),
{
    if s.len() > 0 {
        let rest = s.drop_last();
        lemma_digits_worth(rest, radix);
        lemma_worth_push(0, s, radix);
        let high = worth(0, rest, radix);
        assert(high <= high * radix) by (nonlinear_arith)
            requires
                radix >= 1,
        ;
        if all_digits(s, radix) && worth(0, s, radix) <= u32::MAX {
            assert forall|i: int| 0 <= i < rest.len() implies (digit_value(
                #[trigger] rest[i],
            ) is Some && digit_value(rest[i])->0 < radix) by {
                assert(rest[i] == s[i]);
            }
            assert(s.last() == s[s.len() - 1]);
            assert(all_digits(rest, radix));
        }
        if digits_value(s, radix) is Ok {
            assert forall|i: int| 0 <= i < s.len() implies (digit_value(#[trigger] s[i]) is Some
                && digit_value(s[i])->0 < radix) by {
                if i < rest.len() {
                    assert(rest[i] == s[i]);
                }
            }
        }
    }
}

/// A text is a number exactly where it is digits, at least one, with or without a plus
/// sign before them, that are worth no more than 32 bits hold; it is then what they
/// are worth.
pub proof fn law_number_by_digits(s: Seq<char>, radix: nat, n: nat)
    requires
        1 <= radix <= 16,
    ensures
        number(s, radix) == Ok::<nat, NumberError>(n) <==> ({
            let digits = if s.len() > 1 && s[0] == '+' {
                s.skip(1)
            } else {
                s
            };
            digits.len() > 0 && all_digits(digits, radix) && n == worth(0, digits, radix) && n
                <= 0xffff_ffff
        }),
{
    let digits = if s.len() > 1 && s[0] == '+' {
        s.skip(1)
    } else {
        s
    };
    lemma_digits_worth(digits, radix);
}

/// A text that is no number fails for its first fault: it is empty, a character is no
/// digit, or the digits up to there are worth more than 32 bits hold.
pub proof fn law_number_faults(digits: Seq<char>, c: char, rest: Seq<char>, radix: nat)
    requires
        1 <= radix <= 16,
        all_digits(digits, radix),
        worth(0, digits, radix) <= 0xffff_ffff,
    ensures
        number(Seq::empty(), radix) == Err::<nat, NumberError>(NumberError::Empty),
        !all_digits(seq![c], radix) ==> digits_value(digits.push(c) + rest, radix) == Err::<
            nat,
            NumberError,
        >(NumberError::InvalidDigit),
        all_digits(seq![c], radix) && worth(0, digits.push(c), radix) > 0xffff_ffff
            ==> digits_value(digits.push(c) + rest, radix) == Err::<nat, NumberError>(
            NumberError::TooLarge,
        ),
    decreases rest.len(),
{
    let one = digits.push(c);
    if rest.len() == 0 {
        assert(one + rest =~= one);
        assert(one.drop_last() =~= digits);
        lemma_digits_worth(digits, radix);
        lemma_worth_push(0, one, radix);
        if all_digits(seq![c], radix) {
            assert(seq![c][0] == c);
        } else {
            if digit_value(c) is Some && digit_value(c)->0 < radix {
                assert(all_digits(seq![c], radix));
            }
        }
    } else {
        law_number_faults(digits, c, rest.drop_last(), radix);
        assert((one + rest).drop_last() =~= one + rest.drop_last());
    }
}

proof fn lemma_decimal_of(s: Seq<char>, n: nat)
    requires
        s.len() > 0,
        s[0] == '0' ==> s.len() == 1,
        digits_value(s, 10) == Ok::<nat, NumberError>(n),
    ensures
        decimal(n) == s,
        s[0] != '0' ==> n > 0,
    decreases s.len(),
{
    let rest = s.drop_last();
    if s.len() == 1 {
        assert(rest =~= Seq::empty());
        assert(digits_value(rest, 10) == Ok::<nat, NumberError>(0));
        assert(digit(n as int) == s[0]);
        assert(decimal(n) =~= s);
    } else {
        let high = digits_value(rest, 10)->Ok_0;
        lemma_decimal_of(rest, high);
        let low = digit_value(s.last())->0;
        assert(n == high * 10 + low);
        assert(n / 10 == high && n % 10 == low);
        assert(digit(low as int) == s.last());
        assert(decimal(n) =~= s);
    }
}

/// A text is an address exactly where it is that address in dotted decimal notation.
pub proof fn law_address_is_its_text(s: Seq<char>, ip: Ipv4Addr)
    ensures
        address(s) == Some(ip) <==> s == ip.text(),
{
    if s == ip.text() {
        crate::net::law_address_reads_back(ip);
    }
    if address(s) == Some(ip) {
        let parts = split(s, Cut::At('.').pred());
        law_pieces_join_back(s, '.');
        lemma_octet_is_decimal(parts[0], ip.a);
        lemma_octet_is_decimal(parts[1], ip.b);
        lemma_octet_is_decimal(parts[2], ip.c);
        lemma_octet_is_decimal(parts[3], ip.d);
        let three = parts.drop_last();
        let two = three.drop_last();
        let one = two.drop_last();
        assert(one =~= seq![parts[0]]);
        assert(joined(one, '.') == parts[0]);
        assert(joined(two, '.') == joined(one, '.').push('.') + parts[1]);
        assert(joined(three, '.') == joined(two, '.').push('.') + parts[2]);
        reveal_strlit(".");
        assert("."@ =~= seq!['.']);
        assert(s =~= ip.text());
    }
}

proof fn lemma_octet_is_decimal(s: Seq<char>, n: u8)
    requires
        octet(s) == Some(n),
    ensures
        s == decimal(n as nat),
{
    lemma_decimal_of(s, n as nat);
}

/// An address is one number, each octet worth a byte.
pub proof fn law_address_number(ip: Ipv4Addr)
    ensures
        ip.number() == ((ip.a * 256 + ip.b) * 256 + ip.c) * 256 + ip.d,
        crate::net::address_of(ip.number()) == ip,
{
    crate::net::lemma_address_of(ip);
}

/// `0x`, so many times.
pub open spec fn marks(k: nat) -> Seq<char>
    decreases k,
{
    if k == 0 {
        Seq::empty()
    } else {
        seq!['0', 'x'] + marks((k - 1) as nat)
    }
}

proof fn lemma_marks_cut(k: nat, s: Seq<char>)
    requires
        s.len() >= 2 ==> s[1] != 'x',
    ensures
        without_prefix(marks(k) + s) == s,
    decreases k,
{
    if k == 0 {
        assert(marks(k) + s =~= s);
    } else {
        let more = marks((k - 1) as nat) + s;
        assert(marks(k) + s =~= seq!['0', 'x'] + more);
        assert((marks(k) + s).skip(2) =~= more);
        lemma_marks_cut((k - 1) as nat, s);
    }
}

proof fn lemma_marks_edges(k: nat)
    ensures
        k > 0 ==> marks(k).len() > 0 && marks(k)[0] == '0' && marks(k).last() == 'x',
    decreases k,
{
    if k > 0 {
        lemma_marks_edges((k - 1) as nat);
        if k == 1 {
            assert(marks(0) =~= Seq::empty());
            assert(marks(1) =~= seq!['0', 'x']);
        }
    }
}

/// A word of an answer is its hexadecimal digits, in small letters or capitals, with or
/// without `0x` before them and white space around, where 32 bits hold it.
pub proof fn law_word_by_digits(a: Seq<char>, k: nat, digits: Seq<char>, b: Seq<char>)
    requires
        all_white(a),
        all_white(b),
        digits.len() > 0,
        all_digits(digits, 16),
    ensures
        worth(0, digits, 16) <= 0xffff_ffff ==> word_of(a + (marks(k) + digits) + b) == Ok::<
            u32,
            ErrorView,
        >(worth(0, digits, 16) as u32),
        worth(0, digits, 16) > 0xffff_ffff ==> word_of(a + (marks(k) + digits) + b) is Err,
{
    let inner = marks(k) + digits;
    let last = digits[digits.len() - 1];
    assert(digit_value(digits[0]) is Some);
    assert(digit_value(last) is Some);
    lemma_marks_edges(k);
    assert(inner.last() == last);
    if k > 0 {
        assert(inner[0] == '0');
    } else {
        assert(inner =~= digits);
    }
    law_trim(a, inner, b);
    if digits.len() >= 2 {
        assert(digit_value(digits[1]) is Some);
    }
    lemma_marks_cut(k, digits);
    assert(digits[0] != '+');
    law_number_by_digits(digits, 16, worth(0, digits, 16));
    if worth(0, digits, 16) > 0xffff_ffff {
        match number(digits, 16) {
            Ok(n) => {
                law_number_by_digits(digits, 16, n);
            },
            Err(_) => {},
        }
    }
}

/// The words of an answer are the word of each of its strings, or what is wrong with
/// the first that is none.
pub proof fn law_words_one_by_one(texts: Seq<Seq<char>>)
    ensures
        match words_of(texts) {
            Ok(ws) => ws.len() == texts.len() && forall|i: int|
                0 <= i < texts.len() ==> word_of(#[trigger] texts[i]) == Ok::<u32, ErrorView>(
                    ws[i],
                ),
            Err(e) => exists|i: int|
                0 <= i < texts.len() && word_of(#[trigger] texts[i]) == Err::<u32, ErrorView>(e)
                    && forall|j: int| 0 <= j < i ==> word_of(#[trigger] texts[j]) is Ok,
        },
    decreases texts.len(),
{
    if texts.len() > 0 {
        let rest = texts.drop_last();
        law_words_one_by_one(rest);
        match words_of(rest) {
            Ok(ws) => {
                assert forall|j: int| 0 <= j < texts.len() - 1 implies word_of(#[trigger] texts[j])
                    == Ok::<u32, ErrorView>(ws[j]) by {
                    assert(texts[j] == rest[j]);
                }
                assert(texts.last() == texts[texts.len() - 1]);
            },
            Err(e) => {
                let i = choose|i: int|
                    0 <= i < rest.len() && word_of(#[trigger] rest[i]) == Err::<u32, ErrorView>(e)
                        && forall|j: int| 0 <= j < i ==> word_of(#[trigger] rest[j]) is Ok;
                assert(texts[i] == rest[i]);
                assert forall|j: int| 0 <= j < i implies word_of(#[trigger] texts[j]) is Ok by {
                    assert(texts[j] == rest[j]);
                }
            },
        }
    }
}

/// What is wrong with a word is told with the word and why.
pub proof fn law_word_complaints(text: Seq<char>)
    ensures
        word_of(text) matches Err(e) ==> ({
            let why = match number(without_prefix(trim(text)), 16) {
                Err(NumberError::Empty) => "cannot parse integer from empty string"@,
                Err(NumberError::InvalidDigit) => "invalid digit found in string"@,
                _ => "number too large to fit in target type"@,
            };
            e == (ErrorView::Decode {
                cmd: "ms"@,
                reason: "word "@ + debug_text(text) + ": "@ + why,
            })
        }),
{
}

/// A word of an answer is read without the white space around it and without any `0x`
/// that it then begins with, and is the hexadecimal number that is left; where that is
/// no number, the whole text is told.
pub proof fn law_word_any(a: Seq<char>, k: nat, digits: Seq<char>, b: Seq<char>)
    requires
        all_white(a),
        all_white(b),
        tight(marks(k) + digits),
        !(digits.len() >= 2 && digits[0] == '0' && digits[1] == 'x'),
    ensures
        ({
            let text = a + (marks(k) + digits) + b;
            match number(digits, 16) {
                Ok(n) => word_of(text) == Ok::<u32, ErrorView>(n as u32),
                Err(e) => word_of(text) == Err::<u32, ErrorView>(
                    ErrorView::Decode {
                        cmd: "ms"@,
                        reason: "word "@ + debug_text(text) + ": "@ + match e {
                            NumberError::Empty => "cannot parse integer from empty string"@,
                            NumberError::InvalidDigit => "invalid digit found in string"@,
                            NumberError::TooLarge => "number too large to fit in target type"@,
                        },
                    },
                ),
            }
        }),
{
    law_trim(a, marks(k) + digits, b);
    lemma_marks_any(k, digits);
}

proof fn lemma_marks_any(k: nat, s: Seq<char>)
    requires
        !(s.len() >= 2 && s[0] == '0' && s[1] == 'x'),
    ensures
        without_prefix(marks(k) + s) == s,
    decreases k,
{
    if k == 0 {
        assert(marks(k) + s =~= s);
    } else {
        let more = marks((k - 1) as nat) + s;
        assert(marks(k) + s =~= seq!['0', 'x'] + more);
        assert((marks(k) + s).skip(2) =~= more);
        lemma_marks_any((k - 1) as nat, s);
    }
}

} // verus!
