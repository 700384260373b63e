//! The adapter's register commands and the words it answers with.

use crate::error::{Error, ErrorView, Result};
use crate::json::{
    field_views, json_strings, name_views, read_record, read_strings, record,
};
use crate::text::{
    chars_of, copy_between, debug_text, decimal, decimal_text, number, parse_number, quoted,
    text_views, trim, trimmed, NumberError,
};
use vstd::prelude::*;

verus! {

/// One register command: the address space it lives in, its hexadecimal code,
/// and whether its path ends in `/GET`.
#[derive(Debug, Clone, Copy)]
pub struct MsCmd {
    pub space: u8,
    pub code: &'static str,
    pub get_suffix: bool,
}

impl MsCmd {
    pub fn new(space: u8, code: &'static str, get_suffix: bool) -> (r: Self)
        ensures
            r == (MsCmd { space, code, get_suffix }),
    {
        MsCmd { space, code, get_suffix }
    }

    /// The request path of the command.
    pub open spec fn spec_path(self) -> Seq<char> {
        let stem = "/ms/"@ + decimal(self.space as nat) + "/"@ + self.code@;
        if self.get_suffix {
            stem + "/GET"@
        } else {
            stem
        }
    }

    pub fn path(&self) -> (r: String)
        ensures
            r@ == self.spec_path(),
    {
        let space = decimal_text(self.space as u64);
        let stem = "/ms/".to_owned().concat(space.as_str()).concat("/").concat(self.code);
        if self.get_suffix {
            stem.concat("/GET")
        } else {
            stem
        }
    }
}

/// Version, node id, link state and node bitmask of the adapter.
#[verifier::allow_in_spec]
pub fn local_info() -> MsCmd
    returns
        (MsCmd { space: 0, code: "0x15", get_suffix: false }),
{
    MsCmd { space: 0, code: "0x15", get_suffix: false }
}

/// What the adapter knows of one node of its network.
#[verifier::allow_in_spec]
pub fn net_info() -> MsCmd
    returns
        (MsCmd { space: 0, code: "0x16", get_suffix: false }),
{
    MsCmd { space: 0, code: "0x16", get_suffix: false }
}

/// The adapter's MAC address.
#[verifier::allow_in_spec]
pub fn mac_info() -> MsCmd
    returns
        (MsCmd { space: 1, code: "0x103", get_suffix: true }),
{
    MsCmd { space: 1, code: "0x103", get_suffix: true }
}

/// Ethernet frame counters.
#[verifier::allow_in_spec]
pub fn frame_info() -> MsCmd
    returns
        (MsCmd { space: 0, code: "0x14", get_suffix: false }),
{
    MsCmd { space: 0, code: "0x14", get_suffix: false }
}

/// Link, speed and duplex of each Ethernet port.
#[verifier::allow_in_spec]
pub fn eth_info() -> MsCmd
    returns
        (MsCmd { space: 1, code: "0x307", get_suffix: true }),
{
    MsCmd { space: 1, code: "0x307", get_suffix: true }
}

/// The adapter's IP address.
#[verifier::allow_in_spec]
pub fn ip_addr() -> MsCmd
    returns
        (MsCmd { space: 1, code: "0x20b", get_suffix: true }),
{
    MsCmd { space: 1, code: "0x20b", get_suffix: true }
}

/// The beacon channel.
#[verifier::allow_in_spec]
pub fn lof() -> MsCmd
    returns
        (MsCmd { space: 0, code: "0x1003", get_suffix: true }),
{
    MsCmd { space: 0, code: "0x1003", get_suffix: true }
}

/// The bit-loading parameters of one node's links.
#[verifier::allow_in_spec]
pub fn fmr_info() -> MsCmd
    returns
        (MsCmd { space: 0, code: "0x1D", get_suffix: false }),
{
    MsCmd { space: 0, code: "0x1D", get_suffix: false }
}

/// Power-cycles the adapter.
#[verifier::allow_in_spec]
pub fn reboot() -> MsCmd
    returns
        (MsCmd { space: 1, code: "0xb00", get_suffix: false }),
{
    MsCmd { space: 1, code: "0xb00", get_suffix: false }
}

/// `s` without any `0x` that it begins with.
pub open spec fn without_prefix(s: Seq<char>) -> Seq<char>
    decreases s.len(),
{
    if s.len() >= 2 && s[0] == '0' && s[1] == 'x' {
        without_prefix(s.skip(2))
    } else {
        s
    }
}

/// What a message says of a text that is no number.
pub open spec fn number_complaint(e: NumberError) -> Seq<char> {
    match e {
        NumberError::Empty => "cannot parse integer from empty string"@,
        NumberError::InvalidDigit => "invalid digit found in string"@,
        NumberError::TooLarge => "number too large to fit in target type"@,
    }
}

fn complaint_text(e: NumberError) -> (r: &'static str)
    ensures
        r@ == number_complaint(e),
{
    match e {
        NumberError::Empty => "cannot parse integer from empty string",
        NumberError::InvalidDigit => "invalid digit found in string",
        NumberError::TooLarge => "number too large to fit in target type",
    }
}

/// What an answer that cannot be read fails with.
pub open spec fn ms_error(reason: Seq<char>) -> ErrorView {
    ErrorView::Decode { cmd: "ms"@, reason }
}

/// The word that `text` writes: hexadecimal digits, with or without `0x` before
/// them and white space around.
pub open spec fn word_of(text: Seq<char>) -> core::result::Result<u32, ErrorView> {
    match number(without_prefix(trim(text)), 16) {
        Ok(n) => Ok(n as u32),
        Err(e) => Err(ms_error("word "@ + debug_text(text) + ": "@ + number_complaint(e))),
    }
}

/// The words that `texts` write, or what is wrong with the first that is none.
pub open spec fn words_of(texts: Seq<Seq<char>>) -> core::result::Result<Seq<u32>, ErrorView>
    decreases texts.len(),
{
    if texts.len() == 0 {
        Ok(Seq::empty())
    } else {
        match words_of(texts.drop_last()) {
            Err(e) => Err(e),
            Ok(before) => match word_of(texts.last()) {
                Err(e) => Err(e),
                Ok(w) => Ok(before.push(w)),
            },
        }
    }
}

proof fn lemma_words_fail(texts: Seq<Seq<char>>, n: int)
    requires
        0 <= n <= texts.len(),
        words_of(texts.take(n)) is Err,
    ensures
        words_of(texts) == words_of(texts.take(n)),
    decreases texts.len() - n,
{
    if n < texts.len() {
        assert(texts.take(n + 1).drop_last() =~= texts.take(n));
        lemma_words_fail(texts, n + 1);
    } else {
        assert(texts.take(n) =~= texts);
    }
}

/// Reads one word of an answer.
pub fn read_word(text: &str) -> (r: Result<u32>)
    ensures
        match r {
            Ok(w) => word_of(text@) == Ok::<u32, ErrorView>(w),
            Err(e) => word_of(text@) == Err::<u32, ErrorView>(e@),
        },
{
    let cs = chars_of(text);
    let inner = trimmed(cs.as_slice());
    let mut from: usize = 0;
    assert(inner@.skip(0) =~= inner@);
    while from < inner.len() && inner.len() - from >= 2 && inner[from] == '0' && inner[from + 1]
        == 'x'
        invariant
            from <= inner.len(),
            without_prefix(inner@) == without_prefix(inner@.skip(from as int)),
        decreases inner.len() - from,
    {
        assert(inner@.skip(from as int).skip(2) =~= inner@.skip(from + 2));
        from = from + 2;
    }
    let digits = copy_between(inner.as_slice(), from, inner.len());
    assert(digits@ =~= inner@.skip(from as int));
    match parse_number(digits.as_slice(), 16) {
        Ok(w) => Ok(w),
        Err(e) => {
            let shown = quoted(text);
            let why = complaint_text(e);
            Err(
                Error::Decode {
                    cmd: "ms".to_owned(),
                    reason: "word ".to_owned().concat(shown.as_str()).concat(": ").concat(why),
                },
            )
        },
    }
}

/// Reads the words of an answer.
pub fn read_words(texts: &[String]) -> (r: Result<Vec<u32>>)
    ensures
        match r {
            Ok(words) => words_of(text_views(texts@)) == Ok::<Seq<u32>, ErrorView>(words@),
            Err(e) => words_of(text_views(texts@)) == Err::<Seq<u32>, ErrorView>(e@),
        },
{
    let ghost all = text_views(texts@);
    let mut out: Vec<u32> = Vec::new();
    let mut i: usize = 0;
    assert(all.take(0) =~= Seq::<Seq<char>>::empty());
    while i < texts.len()
        invariant
            i <= texts.len(),
            all == text_views(texts@),
            words_of(all.take(i as int)) == Ok::<Seq<u32>, ErrorView>(out@),
        decreases texts.len() - i,
    {
        assert(all.take(i + 1).drop_last() =~= all.take(i as int));
        assert(all.take(i + 1).last() == texts@[i as int]@);
        let w: u32 = match read_word(texts[i].as_str()) {
            Ok(w) => w,
            Err(e) => {
                proof {
                    lemma_words_fail(all, i + 1);
                }
                return Err(e);
            },
        };
        out.push(w);
        i = i + 1;
    }
    assert(all.take(all.len() as int) =~= all);
    Ok(out)
}

/// The strings under `data` in an answer.
pub open spec fn data_in(body: Seq<char>) -> Option<Seq<Seq<char>>> {
    match record(body, seq!["data"@], 1, false) {
        None => None,
        Some(fields) => match fields[0] {
            None => None,
            Some(text) => json_strings(text),
        },
    }
}

/// Whether `r` are the words of an answer. Where `body` writes no answer, the error
/// has the words that `complaint` has for it.
pub open spec fn read_as<C: Fn(&str) -> String>(
    body: &str,
    complaint: C,
    r: Result<Vec<u32>>,
) -> bool {
    match data_in(body@) {
        None => exists|why: String| #[trigger]
            call_ensures(complaint, (body,), why) && (r matches Err(e) && e@ == ms_error(
                "json: "@ + why@,
            )),
        Some(texts) => match r {
            Ok(words) => words_of(texts) == Ok::<Seq<u32>, ErrorView>(words@),
            Err(e) => words_of(texts) == Err::<Seq<u32>, ErrorView>(e@),
        },
    }
}

/// Takes the strings under `data` in an answer.
pub fn read_data(body: &str) -> (r: Option<Vec<String>>)
    ensures
        match r {
            Some(list) => data_in(body@) == Some(text_views(list@)),
            None => data_in(body@) is None,
        },
{
    let names: Vec<&str> = vec!["data"];
    assert(name_views(names@) =~= seq!["data"@]);
    let fields = read_record(body, names.as_slice(), 1, false)?;
    assert(field_views(fields@).len() == 1);
    match &fields[0] {
        None => None,
        Some(text) => read_strings(text.as_str()),
    }
}

/// Reads the words of an answer: a JSON object whose `data` lists them as
/// strings. `complaint` has the words for what is wrong with a text that is no such
/// object.
pub fn parse_ms_response<C: Fn(&str) -> String>(body: &str, complaint: &C) -> (r: Result<Vec<u32>>)
    requires
        call_requires(*complaint, (body,)),
    ensures
        read_as(body, *complaint, r),
{
    match read_data(body) {
        Some(texts) => read_words(texts.as_slice()),
        None => {
            let why = complaint(body);
            Err(
                Error::Decode {
                    cmd: "ms".to_owned(),
                    reason: "json: ".to_owned().concat(why.as_str()),
                },
            )
        },
    }
}

/// As many words are read as an answer has strings.
pub proof fn law_one_word_each(texts: Seq<Seq<char>>)
    ensures
        words_of(texts) matches Ok(words) ==> words.len() == texts.len(),
    decreases texts.len(),
{
    if texts.len() > 0 {
        law_one_word_each(texts.drop_last());
    }
}

} // verus!
