//! Text as sequences of characters: the building blocks of the parsers and
//! renderers.

use vstd::prelude::*;

verus! {

/// `String::push` of the standard library: the character is added at the end.
pub assume_specification[ String::push ](s: &mut String, c: char)
    ensures
        final(s)@ == old(s)@.push(c),
;

/// A text as `{:?}` shows it: in quotes, with escapes.
pub uninterp spec fn debug_text(s: Seq<char>) -> Seq<char>;

/// `format!("{:?}", s)` of the standard library: the text in quotes and with
/// escapes, the same for the same text.
#[verifier::external_body]
pub(crate) fn quoted(s: &str) -> (r: String)
    ensures
        r@ == debug_text(s@),
{
    format!("{:?}", s)
}

/// The texts `f` gives of `items`, one behind the other.
pub open spec fn cat<T>(items: Seq<T>, f: spec_fn(T) -> Seq<char>) -> Seq<char>
    decreases items.len(),
{
    if items.len() == 0 {
        Seq::empty()
    } else {
        cat(items.drop_last(), f) + f(items.last())
    }
}

/// One more item adds its text behind those of the items before it.
pub proof fn lemma_cat_step<T>(items: Seq<T>, i: int, f: spec_fn(T) -> Seq<char>)
    requires
        0 <= i < items.len(),
    ensures
        cat(items.take(i + 1), f) == cat(items.take(i), f) + f(items[i]),
{
    assert(items.take(i + 1).drop_last() =~= items.take(i));
}

/// The texts of two lists of items are those of the first, then those of the
/// second.
pub proof fn lemma_cat_append<T>(a: Seq<T>, b: Seq<T>, f: spec_fn(T) -> Seq<char>)
    ensures
        cat(a + b, f) == cat(a, f) + cat(b, f),
    decreases b.len(),
{
    if b.len() == 0 {
        assert(a + b =~= a);
        assert(cat(a, f) + cat(b, f) =~= cat(a, f));
    } else {
        assert((a + b).drop_last() =~= a + b.drop_last());
        lemma_cat_append(a, b.drop_last(), f);
        assert(cat(a, f) + cat(b, f) =~= cat(a, f) + cat(b.drop_last(), f) + f(b.last()));
    }
}

/// The texts of items are empty together only where each is.
pub proof fn lemma_cat_empty<T>(items: Seq<T>, f: spec_fn(T) -> Seq<char>)
    ensures
        cat(items, f).len() == 0 <==> forall|i: int|
            0 <= i < items.len() ==> f(#[trigger] items[i]).len() == 0,
    decreases items.len(),
{
    if items.len() > 0 {
        let before = items.drop_last();
        lemma_cat_empty(before, f);
        if cat(items, f).len() == 0 {
            assert forall|i: int| 0 <= i < items.len() implies f(#[trigger] items[i]).len() == 0 by {
                if i < before.len() {
                    assert(before[i] == items[i]);
                }
            }
        } else if forall|i: int| 0 <= i < items.len() ==> f(#[trigger] items[i]).len() == 0 {
            assert forall|i: int| 0 <= i < before.len() implies f(
                #[trigger] before[i],
            ).len() == 0 by {
                assert(before[i] == items[i]);
            }
            assert(f(items[items.len() - 1]).len() == 0);
        }
    }
}

/// The decimal digit of `n`.
pub open spec fn digit(n: int) -> char
    recommends
        0 <= n < 10,
{
    (48 + n) as char
}

/// `n` in decimal notation, without leading zeros.
pub open spec fn decimal(n: nat) -> Seq<char>
    decreases n,
{
    if n < 10 {
        seq![digit(n as int)]
    } else {
        decimal(n / 10).push(digit((n % 10) as int))
    }
}

/// Different numbers are written differently.
pub proof fn lemma_decimal_injective(a: nat, b: nat)
    ensures
        decimal(a) == decimal(b) <==> a == b,
    decreases a,
{
    lemma_decimal_len(a);
    lemma_decimal_len(b);
    if decimal(a) == decimal(b) {
        assert(decimal(a).last() == decimal(b).last());
        if a >= 10 {
            assert(decimal(a).drop_last() =~= decimal(a / 10));
            assert(decimal(b).drop_last() =~= decimal(b / 10));
            lemma_decimal_injective(a / 10, b / 10);
        }
    }
}

proof fn lemma_decimal_len(n: nat)
    ensures
        decimal(n).len() >= 1,
        n >= 10 ==> decimal(n).len() >= 2,
    decreases n,
{
    if n >= 10 {
        lemma_decimal_len(n / 10);
    }
}

/// The characters of a text.
pub fn chars_of(s: &str) -> (r: Vec<char>)
    ensures
        r@ == s@,
{
    let mut r: Vec<char> = Vec::new();
    for c in it: s.chars()
        invariant
            r@ == s@.take(it.index() as int),
            it.seq() == s@,
    {
        proof {
            assert(s@.take(it.index() + 1) =~= s@.take(it.index() as int).push(s@[it.index() as int]));
        }
        r.push(c);
    }
    assert(s@.take(s@.len() as int) =~= s@);
    r
}

/// The text that `cs[from..to]` spells.
pub fn text_between(cs: &[char], from: usize, to: usize) -> (r: String)
    requires
        from <= to <= cs.len(),
    ensures
        r@ == cs@.subrange(from as int, to as int),
{
    let mut r: String = String::new();
    let mut i: usize = from;
    while i < to
        invariant
            from <= i <= to <= cs.len(),
            r@ == cs@.subrange(from as int, i as int),
        decreases to - i,
    {
        r.push(cs[i]);
        i = i + 1;
        assert(cs@.subrange(from as int, i as int) =~= cs@.subrange(from as int, i - 1).push(
            cs@[i - 1],
        ));
    }
    r
}

/// The text that `cs` spells.
pub fn text_of(cs: &[char]) -> (r: String)
    ensures
        r@ == cs@,
{
    let r = text_between(cs, 0, cs.len());
    assert(cs@.subrange(0, cs@.len() as int) =~= cs@);
    r
}

/// Whether two texts are the same.
pub fn same_text(a: &str, b: &str) -> (r: bool)
    ensures
        r == (a@ == b@),
{
    a.to_owned() == b.to_owned()
}

/// The character of the decimal digit `n`.
pub fn digit_char(n: u8) -> (r: char)
    requires
        n < 10,
    ensures
        r == digit(n as int),
{
    (48 + n) as char
}

/// `n` in decimal notation.
pub fn decimal_text(n: u64) -> (r: String)
    ensures
        r@ == decimal(n as nat),
    decreases n,
{
    if n < 10 {
        let mut r: String = String::new();
        r.push(digit_char(n as u8));
        assert(r@ =~= seq![digit(n as int)]);
        r
    } else {
        let mut r = decimal_text(n / 10);
        r.push(digit_char((n % 10) as u8));
        r
    }
}

/// The hexadecimal digit of `n`, in lower case.
pub open spec fn hex_digit(n: int) -> char
    recommends
        0 <= n < 16,
{
    if n < 10 {
        (48 + n) as char
    } else {
        (87 + n) as char
    }
}

/// A byte as two hexadecimal digits.
pub open spec fn hex_byte(b: u8) -> Seq<char> {
    seq![hex_digit(b as int / 16), hex_digit(b as int % 16)]
}

fn hex_digit_char(n: u8) -> (r: char)
    requires
        n < 16,
    ensures
        r == hex_digit(n as int),
{
    if n < 10 {
        (48 + n) as char
    } else {
        (87 + n) as char
    }
}

/// Adds a byte as two hexadecimal digits.
pub fn push_hex_byte(out: &mut String, b: u8)
    ensures
        final(out)@ == old(out)@ + hex_byte(b),
{
    out.push(hex_digit_char(b / 16));
    out.push(hex_digit_char(b % 16));
    assert(out@ =~= old(out)@ + hex_byte(b));
}

/// The characters with the Unicode property White_Space.
pub open spec fn is_white_space(c: char) -> bool {
    ||| 0x09 <= c as u32 <= 0x0d
    ||| c as u32 == 0x20
    ||| c as u32 == 0x85
    ||| c as u32 == 0xa0
    ||| c as u32 == 0x1680
    ||| 0x2000 <= c as u32 <= 0x200a
    ||| c as u32 == 0x2028
    ||| c as u32 == 0x2029
    ||| c as u32 == 0x202f
    ||| c as u32 == 0x205f
    ||| c as u32 == 0x3000
}

pub fn white_space(c: char) -> (r: bool)
    ensures
        r == is_white_space(c),
{
    let n: u32 = c as u32;
    (0x09 <= n && n <= 0x0d) || n == 0x20 || n == 0x85 || n == 0xa0 || n == 0x1680 || (0x2000 <= n
        && n <= 0x200a) || n == 0x2028 || n == 0x2029 || n == 0x202f || n == 0x205f || n == 0x3000
}

/// `s` without the white space it begins with.
pub open spec fn trim_start(s: Seq<char>) -> Seq<char>
    decreases s.len(),
{
    if s.len() > 0 && is_white_space(s[0]) {
        trim_start(s.skip(1))
    } else {
        s
    }
}

/// `s` without the white space it ends with.
pub open spec fn trim_end(s: Seq<char>) -> Seq<char>
    decreases s.len(),
{
    if s.len() > 0 && is_white_space(s.last()) {
        trim_end(s.drop_last())
    } else {
        s
    }
}

/// `s` without the white space around it.
pub open spec fn trim(s: Seq<char>) -> Seq<char> {
    trim_end(trim_start(s))
}

/// The characters of `cs` without the white space around them.
pub fn trimmed(cs: &[char]) -> (r: Vec<char>)
    ensures
        r@ == trim(cs@),
{
    let mut from: usize = 0;
    assert(cs@.skip(0) =~= cs@);
    while from < cs.len() && white_space(cs[from])
        invariant
            from <= cs.len(),
            trim_start(cs@) == trim_start(cs@.skip(from as int)),
        decreases cs.len() - from,
    {
        assert(cs@.skip(from as int).skip(1) =~= cs@.skip(from + 1));
        from = from + 1;
    }
    let ghost rest = cs@.skip(from as int);
    let mut to: usize = cs.len();
    assert(cs@.subrange(from as int, to as int) =~= rest);
    while to > from && white_space(cs[to - 1])
        invariant
            from <= to <= cs.len(),
            trim_end(rest) == trim_end(cs@.subrange(from as int, to as int)),
        decreases to,
    {
        assert(cs@.subrange(from as int, to as int).drop_last() =~= cs@.subrange(
            from as int,
            to - 1,
        ));
        to = to - 1;
    }
    copy_between(cs, from, to)
}

/// A copy of `cs[from..to]`.
pub fn copy_between(cs: &[char], from: usize, to: usize) -> (r: Vec<char>)
    requires
        from <= to <= cs.len(),
    ensures
        r@ == cs@.subrange(from as int, to as int),
{
    let mut r: Vec<char> = Vec::new();
    let mut i: usize = from;
    while i < to
        invariant
            from <= i <= to <= cs.len(),
            r@ == cs@.subrange(from as int, i as int),
        decreases to - i,
    {
        r.push(cs[i]);
        i = i + 1;
        assert(cs@.subrange(from as int, i as int) =~= cs@.subrange(from as int, i - 1).push(
            cs@[i - 1],
        ));
    }
    r
}

/// The characters of each text.
pub open spec fn views(pieces: Seq<Vec<char>>) -> Seq<Seq<char>> {
    pieces.map_values(|piece: Vec<char>| piece@)
}

/// The pieces of `s` between the characters that `cut` picks, one more than
/// there are such characters.
pub open spec fn split(s: Seq<char>, cut: spec_fn(char) -> bool) -> Seq<Seq<char>>
    decreases s.len(),
{
    if s.len() == 0 {
        seq![Seq::empty()]
    } else {
        let before = split(s.drop_last(), cut);
        if cut(s.last()) {
            before.push(Seq::empty())
        } else {
            before.drop_last().push(before.last().push(s.last()))
        }
    }
}

/// Which characters separate the pieces of a text.
#[derive(Clone, Copy)]
pub enum Cut {
    At(char),
    AtEither(char, char),
    AtWhiteSpace,
}

impl Cut {
    pub open spec fn picks(self, c: char) -> bool {
        match self {
            Cut::At(a) => c == a,
            Cut::AtEither(a, b) => c == a || c == b,
            Cut::AtWhiteSpace => is_white_space(c),
        }
    }

    pub open spec fn pred(self) -> spec_fn(char) -> bool {
        |c: char| self.picks(c)
    }

    fn test(&self, c: char) -> (r: bool)
        ensures
            r == self.picks(c),
    {
        match self {
            Cut::At(a) => c == *a,
            Cut::AtEither(a, b) => c == *a || c == *b,
            Cut::AtWhiteSpace => white_space(c),
        }
    }
}

/// The pieces of `cs` between the characters that `cut` picks.
pub fn pieces(cs: &[char], cut: Cut) -> (r: Vec<Vec<char>>)
    ensures
        views(r@) == split(cs@, cut.pred()),
        r@.len() >= 1,
{
    let mut done: Vec<Vec<char>> = Vec::new();
    let mut open: Vec<char> = Vec::new();
    let mut i: usize = 0;
    assert(cs@.take(0) =~= Seq::<char>::empty());
    assert(views(done@).push(open@) =~= seq![Seq::<char>::empty()]);
    while i < cs.len()
        invariant
            i <= cs.len(),
            views(done@).push(open@) == split(cs@.take(i as int), cut.pred()),
        decreases cs.len() - i,
    {
        let c = cs[i];
        let ghost before = views(done@).push(open@);
        proof {
            assert(cs@.take(i + 1).drop_last() =~= cs@.take(i as int));
            assert(before.drop_last() =~= views(done@));
        }
        if cut.test(c) {
            let ghost old_done = done@;
            done.push(open);
            open = Vec::new();
            assert(views(done@) =~= before);
        } else {
            open.push(c);
        }
        i = i + 1;
    }
    assert(cs@.take(cs@.len() as int) =~= cs@);
    let ghost all = views(done@).push(open@);
    done.push(open);
    assert(views(done@) =~= all);
    done
}

/// The pieces that are not empty, in order.
pub open spec fn nonempty(parts: Seq<Seq<char>>) -> Seq<Seq<char>>
    decreases parts.len(),
{
    if parts.len() == 0 {
        Seq::empty()
    } else if parts.last().len() == 0 {
        nonempty(parts.drop_last())
    } else {
        nonempty(parts.drop_last()).push(parts.last())
    }
}

/// The runs of characters that are no white space.
pub open spec fn words(s: Seq<char>) -> Seq<Seq<char>> {
    nonempty(split(s, Cut::AtWhiteSpace.pred()))
}

/// The runs of characters of `cs` that are no white space.
pub fn words_of(cs: &[char]) -> (r: Vec<Vec<char>>)
    ensures
        views(r@) == words(cs@),
{
    let parts = pieces(cs, Cut::AtWhiteSpace);
    let ghost all = views(parts@);
    let mut out: Vec<Vec<char>> = Vec::new();
    let mut i: usize = 0;
    assert(views(out@) =~= nonempty(all.take(0)));
    while i < parts.len()
        invariant
            i <= parts.len(),
            all == views(parts@),
            views(out@) == nonempty(all.take(i as int)),
        decreases parts.len() - i,
    {
        assert(all.take(i + 1).drop_last() =~= all.take(i as int));
        if parts[i].len() > 0 {
            let ghost before = views(out@);
            let piece = copy_between(parts[i].as_slice(), 0, parts[i].len());
            assert(piece@ =~= parts@[i as int]@);
            out.push(piece);
            assert(views(out@) =~= before.push(all[i as int]));
        }
        i = i + 1;
    }
    assert(all.take(all.len() as int) =~= all);
    out
}

/// `s` without the carriage return it may end with.
pub open spec fn without_return(s: Seq<char>) -> Seq<char> {
    if s.len() > 0 && s.last() == '\r' {
        s.drop_last()
    } else {
        s
    }
}

/// The lines of `s`. A line ends with a line feed, with or without a carriage
/// return before it; what follows the last one is a line if it is not empty.
pub open spec fn lines(s: Seq<char>) -> Seq<Seq<char>> {
    let parts = split(s, Cut::At('\n').pred());
    let ended = parts.drop_last().map_values(|line: Seq<char>| without_return(line));
    if parts.last().len() > 0 {
        ended.push(parts.last())
    } else {
        ended
    }
}

/// The lines of `cs`.
pub fn lines_of(cs: &[char]) -> (r: Vec<Vec<char>>)
    ensures
        views(r@) == lines(cs@),
{
    let parts = pieces(cs, Cut::At('\n'));
    let ghost all = views(parts@);
    let ghost ended = all.drop_last().map_values(|line: Seq<char>| without_return(line));
    let mut out: Vec<Vec<char>> = Vec::new();
    let mut i: usize = 0;
    let last: usize = parts.len() - 1;
    assert(views(out@) =~= ended.take(0));
    while i < last
        invariant
            i <= last,
            last == parts@.len() - 1,
            all == views(parts@),
            ended == all.drop_last().map_values(|line: Seq<char>| without_return(line)),
            views(out@) == ended.take(i as int),
        decreases last - i,
    {
        let n: usize = parts[i].len();
        let end: usize = if n > 0 && parts[i][n - 1] == '\r' {
            n - 1
        } else {
            n
        };
        let line = copy_between(parts[i].as_slice(), 0, end);
        let ghost before = views(out@);
        assert(line@ =~= ended[i as int]);
        out.push(line);
        assert(views(out@) =~= before.push(ended[i as int]));
        assert(ended.take(i + 1) =~= ended.take(i as int).push(ended[i as int]));
        i = i + 1;
    }
    assert(ended.take(ended.len() as int) =~= ended);
    if parts[last].len() > 0 {
        let line = copy_between(parts[last].as_slice(), 0, parts[last].len());
        assert(line@ =~= all.last());
        out.push(line);
        assert(views(out@) =~= ended.push(all.last()));
    }
    out
}

/// An ASCII letter in lower case; any other character as it is.
pub open spec fn lower(c: char) -> char {
    if 'A' <= c && c <= 'Z' {
        (c as int + 32) as char
    } else {
        c
    }
}

pub open spec fn lower_text(s: Seq<char>) -> Seq<char> {
    s.map_values(|c: char| lower(c))
}

pub fn lower_char(c: char) -> (r: char)
    ensures
        r == lower(c),
{
    if 'A' <= c && c <= 'Z' {
        ((c as u8) + 32) as char
    } else {
        c
    }
}

/// `cs` with its ASCII letters in lower case.
pub fn lowered(cs: &[char]) -> (r: Vec<char>)
    ensures
        r@ == lower_text(cs@),
{
    let mut r: Vec<char> = Vec::new();
    let mut i: usize = 0;
    while i < cs.len()
        invariant
            i <= cs.len(),
            r@ == lower_text(cs@.take(i as int)),
        decreases cs.len() - i,
    {
        r.push(lower_char(cs[i]));
        i = i + 1;
        assert(r@ =~= lower_text(cs@.take(i as int)));
    }
    assert(cs@.take(cs@.len() as int) =~= cs@);
    r
}

/// Whether `part` stands in `s` at position `at`.
pub open spec fn occurs_at(s: Seq<char>, part: Seq<char>, at: int) -> bool {
    0 <= at && at + part.len() <= s.len() && s.subrange(at, at + part.len()) == part
}

/// Whether `part` stands anywhere in `s`.
pub open spec fn contains_text(s: Seq<char>, part: Seq<char>) -> bool {
    exists|at: int| occurs_at(s, part, at)
}

/// Whether `part` stands in `cs` at position `at`.
pub fn stands_at(cs: &[char], part: &[char], at: usize) -> (r: bool)
    ensures
        r == occurs_at(cs@, part@, at as int),
{
    if at > cs.len() || cs.len() - at < part.len() {
        return false;
    }
    let mut i: usize = 0;
    while i < part.len()
        invariant
            i <= part.len(),
            at + part.len() <= cs.len(),
            forall|k: int| 0 <= k < i ==> cs@[at + k] == part@[k],
        decreases part.len() - i,
    {
        if cs[at + i] != part[i] {
            assert(cs@.subrange(at as int, at + part@.len())[i as int] != part@[i as int]);
            return false;
        }
        i = i + 1;
    }
    assert(cs@.subrange(at as int, at + part@.len()) =~= part@);
    true
}

/// Whether `part` stands anywhere in `cs`.
pub fn has_part(cs: &[char], part: &[char]) -> (r: bool)
    ensures
        r == contains_text(cs@, part@),
{
    let mut at: usize = 0;
    while at < cs.len()
        invariant
            at <= cs.len(),
            forall|k: int| 0 <= k < at ==> !occurs_at(cs@, part@, k),
        decreases cs.len() - at,
    {
        if stands_at(cs, part, at) {
            return true;
        }
        at = at + 1;
    }
    let last = stands_at(cs, part, at);
    proof {
        if !last {
            assert forall|k: int| !occurs_at(cs@, part@, k) by {}
        }
    }
    last
}

/// Whether two character sequences are the same.
pub fn same_chars(a: &[char], b: &[char]) -> (r: bool)
    ensures
        r == (a@ == b@),
{
    if a.len() != b.len() {
        return false;
    }
    let r = stands_at(a, b, 0);
    assert(a@.subrange(0, b@.len() as int) =~= a@);
    r
}

/// Where `c` first stands in `s` at or behind `from`.
pub open spec fn find_from(s: Seq<char>, c: char, from: int) -> Option<int>
    decreases s.len() - from,
{
    if from < 0 || from >= s.len() {
        None
    } else if s[from] == c {
        Some(from)
    } else {
        find_from(s, c, from + 1)
    }
}

/// Where `c` first stands in `cs` at or behind `from`.
pub fn position_from(cs: &[char], c: char, from: usize) -> (r: Option<usize>)
    ensures
        match r {
            Some(at) => find_from(cs@, c, from as int) == Some(at as int) && from <= at < cs.len()
                && cs@[at as int] == c,
            None => find_from(cs@, c, from as int) is None,
        },
{
    let mut i: usize = from;
    while i < cs.len()
        invariant
            from <= i,
            find_from(cs@, c, from as int) == find_from(cs@, c, i as int),
        decreases cs.len() - i,
    {
        if cs[i] == c {
            return Some(i);
        }
        i = i + 1;
    }
    None
}

/// Why a text is no number.
pub enum NumberError {
    Empty,
    InvalidDigit,
    TooLarge,
}

/// The value of a digit in bases up to 16.
pub open spec fn digit_value(c: char) -> Option<nat> {
    if '0' <= c && c <= '9' {
        Some((c as int - '0' as int) as nat)
    } else if 'a' <= c && c <= 'f' {
        Some((c as int - 'a' as int + 10) as nat)
    } else if 'A' <= c && c <= 'F' {
        Some((c as int - 'A' as int + 10) as nat)
    } else {
        None
    }
}

/// The number that `digits` spell in base `radix`, if it fits in 32 bits. The
/// first character that is no digit, or that makes the number too large, is
/// what a failure reports.
pub open spec fn digits_value(digits: Seq<char>, radix: nat) -> core::result::Result<nat, NumberError>
    decreases digits.len(),
{
    if digits.len() == 0 {
        Ok(0)
    } else {
        match digits_value(digits.drop_last(), radix) {
            Err(e) => Err(e),
            Ok(high) => match digit_value(digits.last()) {
                Some(low) if low < radix => if high * radix + low <= u32::MAX {
                    Ok(high * radix + low)
                } else {
                    Err(NumberError::TooLarge)
                },
                _ => Err(NumberError::InvalidDigit),
            },
        }
    }
}

/// The unsigned 32-bit number that `s` spells: digits, at least one, with or
/// without a plus sign before them.
pub open spec fn number(s: Seq<char>, radix: nat) -> core::result::Result<nat, NumberError> {
    if s.len() == 0 {
        Err(NumberError::Empty)
    } else if s[0] == '+' && s.len() > 1 {
        digits_value(s.skip(1), radix)
    } else {
        digits_value(s, radix)
    }
}

fn digit_of(c: char) -> (r: Option<u32>)
    ensures
        match r {
            Some(n) => digit_value(c) == Some(n as nat) && n < 16,
            None => digit_value(c) is None,
        },
{
    let n: u32 = c as u32;
    if '0' <= c && c <= '9' {
        Some(n - 48)
    } else if 'a' <= c && c <= 'f' {
        Some(n - 87)
    } else if 'A' <= c && c <= 'F' {
        Some(n - 55)
    } else {
        None
    }
}

proof fn lemma_digits_fail(digits: Seq<char>, radix: nat, n: int)
    requires
        0 <= n <= digits.len(),
        digits_value(digits.take(n), radix) is Err,
    ensures
        digits_value(digits, radix) == digits_value(digits.take(n), radix),
    decreases digits.len() - n,
{
    if n < digits.len() {
        assert(digits.take(n + 1).drop_last() =~= digits.take(n));
        lemma_digits_fail(digits, radix, n + 1);
    } else {
        assert(digits.take(n) =~= digits);
    }
}

/// Reads the unsigned 32-bit number that `cs` spells in base `radix`.
pub fn parse_number(cs: &[char], radix: u32) -> (r: core::result::Result<u32, NumberError>)
    requires
        2 <= radix <= 16,
    ensures
        match r {
            Ok(n) => number(cs@, radix as nat) == Ok::<nat, NumberError>(n as nat),
            Err(e) => number(cs@, radix as nat) == Err::<nat, NumberError>(e),
        },
{
    if cs.len() == 0 {
        return Err(NumberError::Empty);
    }
    let from: usize = if cs[0] == '+' && cs.len() > 1 {
        1
    } else {
        0
    };
    let ghost digits = cs@.skip(from as int);
    assert(cs@.skip(0) =~= cs@);
    let mut value: u32 = 0;
    let mut i: usize = from;
    assert(digits.take(0) =~= Seq::<char>::empty());
    while i < cs.len()
        invariant
            from <= i <= cs.len(),
            2 <= radix <= 16,
            digits == cs@.skip(from as int),
            number(cs@, radix as nat) == digits_value(digits, radix as nat),
            digits_value(digits.take(i - from), radix as nat) == Ok::<nat, NumberError>(value as nat),
        decreases cs.len() - i,
    {
        let ghost k = i - from;
        proof {
            assert(digits.take(k + 1).drop_last() =~= digits.take(k));
            assert(digits.take(k + 1).last() == cs@[i as int]);
        }
        let low: u32 = match digit_of(cs[i]) {
            Some(n) => n,
            None => {
                proof {
                    lemma_digits_fail(digits, radix as nat, k + 1);
                }
                return Err(NumberError::InvalidDigit);
            },
        };
        if low >= radix {
            proof {
                lemma_digits_fail(digits, radix as nat, k + 1);
            }
            return Err(NumberError::InvalidDigit);
        }
        assert(value as u64 * radix as u64 + low as u64 <= u32::MAX as u64 * 16 + 16) by (nonlinear_arith)
            requires
                radix <= 16,
                low <= 16,
        ;
        assert(value * radix == value as nat * radix as nat);
        let next: u64 = value as u64 * radix as u64 + low as u64;
        if next > u32::MAX as u64 {
            proof {
                lemma_digits_fail(digits, radix as nat, k + 1);
            }
            return Err(NumberError::TooLarge);
        }
        value = next as u32;
        i = i + 1;
    }
    assert(digits.take(digits.len() as int) =~= digits);
    Ok(value)
}

/// The texts by their views.
pub open spec fn text_views(list: Seq<String>) -> Seq<Seq<char>> {
    list.map_values(|text: String| text@)
}

/// Whether `text` is one of `list`.
pub fn holds_text(list: &[String], text: &str) -> (r: bool)
    ensures
        r == text_views(list@).contains(text@),
{
    let mut i: usize = 0;
    while i < list.len()
        invariant
            i <= list.len(),
            forall|k: int| 0 <= k < i ==> text_views(list@)[k] != text@,
        decreases list.len() - i,
    {
        if same_text(list[i].as_str(), text) {
            assert(text_views(list@)[i as int] == text@);
            return true;
        }
        i = i + 1;
    }
    false
}

/// A text without a character to cut at is one piece.
pub proof fn lemma_split_whole(s: Seq<char>, cut: spec_fn(char) -> bool)
    requires
        forall|i: int| 0 <= i < s.len() ==> !cut(#[trigger] s[i]),
    ensures
        split(s, cut) == seq![s],
    decreases s.len(),
{
    if s.len() > 0 {
        let before = s.drop_last();
        assert forall|i: int| 0 <= i < before.len() implies !cut(#[trigger] before[i]) by {
            assert(before[i] == s[i]);
        }
        lemma_split_whole(before, cut);
        assert(!cut(s[s.len() - 1]));
        assert(before.push(s.last()) =~= s);
        assert(split(s, cut) =~= seq![s]);
    } else {
        assert(s =~= Seq::empty());
    }
}

/// What follows the last character to cut at is the last piece.
pub proof fn lemma_split_last(
    head: Seq<char>,
    c: char,
    tail: Seq<char>,
    cut: spec_fn(char) -> bool,
)
    requires
        cut(c),
        forall|i: int| 0 <= i < tail.len() ==> !cut(#[trigger] tail[i]),
    ensures
        split(head.push(c) + tail, cut) == split(head, cut).push(tail),
    decreases tail.len(),
{
    let all = head.push(c) + tail;
    if tail.len() == 0 {
        assert(all =~= head.push(c));
        assert(all.drop_last() =~= head);
        assert(tail =~= Seq::empty());
    } else {
        let before = tail.drop_last();
        assert forall|i: int| 0 <= i < before.len() implies !cut(#[trigger] before[i]) by {
            assert(before[i] == tail[i]);
        }
        lemma_split_last(head, c, before, cut);
        assert(all.drop_last() =~= head.push(c) + before);
        assert(!cut(tail[tail.len() - 1]));
        let parts = split(head, cut).push(before);
        assert(parts.drop_last() =~= split(head, cut));
        assert(before.push(tail.last()) =~= tail);
    }
}

/// A number in decimal notation is made of digits, has no leading zero, and
/// reads as the number again.
pub proof fn lemma_decimal_reads_back(n: nat)
    requires
        n <= u32::MAX,
    ensures
        decimal(n).len() >= 1,
        forall|i: int| 0 <= i < decimal(n).len() ==> '0' <= #[trigger] decimal(n)[i] <= '9',
        n > 0 ==> decimal(n)[0] != '0',
        digits_value(decimal(n), 10) == Ok::<nat, NumberError>(n),
        number(decimal(n), 10) == Ok::<nat, NumberError>(n),
    decreases n,
{
    if n < 10 {
        let d = digit(n as int);
        let one = seq![d];
        assert(one.drop_last() =~= Seq::<char>::empty());
        assert(digits_value(Seq::<char>::empty(), 10) == Ok::<nat, NumberError>(0));
        assert(digit_value(d) == Some(n));
    } else {
        let high = n / 10;
        lemma_decimal_reads_back(high);
        let d = digit((n % 10) as int);
        assert(decimal(n).drop_last() =~= decimal(high));
        assert(digit_value(d) == Some(n % 10));
    }
}

/// What precedes the first character to cut at is the first piece.
pub proof fn lemma_split_first(
    head: Seq<char>,
    c: char,
    rest: Seq<char>,
    cut: spec_fn(char) -> bool,
)
    requires
        cut(c),
        forall|i: int| 0 <= i < head.len() ==> !cut(#[trigger] head[i]),
    ensures
        split(head.push(c) + rest, cut).len() >= 2,
        split(head.push(c) + rest, cut)[0] == head,
    decreases rest.len(),
{
    let all = head.push(c) + rest;
    if rest.len() == 0 {
        assert(all =~= head.push(c));
        assert(all.drop_last() =~= head);
        lemma_split_whole(head, cut);
    } else {
        lemma_split_first(head, c, rest.drop_last(), cut);
        assert(all.drop_last() =~= head.push(c) + rest.drop_last());
    }
}

/// A text has at least one piece.
pub proof fn lemma_split_some(s: Seq<char>, cut: spec_fn(char) -> bool)
    ensures
        split(s, cut).len() > 0,
    decreases s.len(),
{
    if s.len() > 0 {
        lemma_split_some(s.drop_last(), cut);
    }
}

/// The pieces before a character to cut at and those behind it are all the
/// pieces.
pub proof fn lemma_split_join(
    head: Seq<char>,
    c: char,
    rest: Seq<char>,
    cut: spec_fn(char) -> bool,
)
    requires
        cut(c),
    ensures
        split(head.push(c) + rest, cut) == split(head, cut) + split(rest, cut),
    decreases rest.len(),
{
    let all = head.push(c) + rest;
    if rest.len() == 0 {
        assert(all =~= head.push(c));
        assert(all.drop_last() =~= head);
        assert(split(all, cut) =~= split(head, cut) + split(rest, cut));
    } else {
        let shorter = rest.drop_last();
        lemma_split_join(head, c, shorter, cut);
        lemma_split_some(shorter, cut);
        assert(all.drop_last() =~= head.push(c) + shorter);
        assert(all.last() == rest.last());
        assert(split(all, cut) =~= split(head, cut) + split(rest, cut));
    }
}

} // verus!
