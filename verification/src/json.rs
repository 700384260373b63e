//! Reading JSON and TOML texts piece by piece: an object gives the texts of its
//! members, an array those of its items, and a scalar gives its value.
//!
//! What the outside parsers make of a text is named, not described: the same
//! text gives the same pieces. Nothing here says what is wrong with a text that
//! is refused: those who hand texts in have the words for it.

use crate::text::{chars_of, same_text, text_between, text_views};
use serde::de::IgnoredAny;
use std::collections::BTreeMap;
use vstd::prelude::*;

verus! {

/// Names and texts as character sequences.
pub type Members = Seq<(Seq<char>, Seq<char>)>;

/// The fields of a record, each by its place in the record's names, where it is
/// there.
pub type Fields = Seq<Option<Seq<char>>>;

/// Names and texts by their views.
pub open spec fn member_views(list: Seq<(String, String)>) -> Seq<(Seq<char>, Seq<char>)> {
    list.map_values(|member: (String, String)| (member.0@, member.1@))
}

/// Whether `text` writes a JSON object.
pub uninterp spec fn is_object(text: Seq<char>) -> bool;

/// Whether `text` writes a JSON array.
pub uninterp spec fn is_array(text: Seq<char>) -> bool;

/// The part of `text` that is read as one JSON value from its beginning on.
pub uninterp spec fn first_value(text: Seq<char>) -> Option<Seq<char>>;

/// The string that `text` writes in JSON.
pub uninterp spec fn json_string(text: Seq<char>) -> Option<Seq<char>>;

/// The unsigned 64-bit number that `text` writes in JSON.
pub uninterp spec fn json_number(text: Seq<char>) -> Option<u64>;

/// The truth value that `text` writes in JSON.
pub uninterp spec fn json_bool(text: Seq<char>) -> Option<bool>;

/// The TOML document `text` as a JSON object.
pub uninterp spec fn toml_as_json(text: Seq<char>) -> Option<Seq<char>>;

/// `serde_json::from_str` to a map whose values are checked and passed over:
/// whether the text writes an object.
#[verifier::external_body]
fn check_object(text: &str) -> (r: bool)
    ensures
        r == is_object(text@),
{
    serde_json::from_str::<BTreeMap<String, IgnoredAny>>(text).is_ok()
}

/// `serde_json::from_str` to a list whose items are checked and passed over:
/// whether the text writes an array.
#[verifier::external_body]
fn check_array(text: &str) -> (r: bool)
    ensures
        r == is_array(text@),
{
    serde_json::from_str::<Vec<IgnoredAny>>(text).is_ok()
}

/// The first step of a `serde_json::StreamDeserializer` over values that are
/// checked and passed over: the text up to the end of the value that it begins
/// with, which is never empty.
#[verifier::external_body]
fn read_first(text: &str) -> (r: Option<String>)
    ensures
        match r {
            Some(value) => first_value(text@) == Some(value@) && value@.len() > 0
                && value@.is_prefix_of(text@),
            None => first_value(text@) is None,
        },
{
    let mut values = serde_json::Deserializer::from_str(text).into_iter::<IgnoredAny>();
    match values.next() {
        Some(Ok(_)) => Some(text.split_at(values.byte_offset()).0.to_owned()),
        _ => None,
    }
}

/// `serde_json::from_str` to a string.
#[verifier::external_body]
pub(crate) fn read_string(text: &str) -> (r: Option<String>)
    ensures
        opt_view(r) == json_string(text@),
{
    serde_json::from_str::<String>(text).ok()
}

/// `serde_json::from_str` to an unsigned number.
#[verifier::external_body]
pub(crate) fn read_number(text: &str) -> (r: Option<u64>)
    ensures
        r == json_number(text@),
{
    serde_json::from_str::<u64>(text).ok()
}

/// `serde_json::from_str` to a truth value.
#[verifier::external_body]
pub(crate) fn read_bool(text: &str) -> (r: Option<bool>)
    ensures
        r == json_bool(text@),
{
    serde_json::from_str::<bool>(text).ok()
}

/// `toml::from_str` to a JSON value, written out as JSON. No key of a table has a
/// meaning of its own.
#[verifier::external_body]
pub(crate) fn read_toml(text: &str) -> (r: Option<String>)
    ensures
        opt_view(r) == toml_as_json(text@),
{
    match toml::from_str::<serde_json::Value>(text) {
        Ok(value) => Some(value.to_string()),
        Err(_) => None,
    }
}

/// A text that may be missing, by its view.
pub open spec fn opt_view(text: Option<String>) -> Option<Seq<char>> {
    match text {
        Some(s) => Some(s@),
        None => None,
    }
}

/// `s` without the blanks it begins with.
pub open spec fn unspaced(s: Seq<char>) -> Seq<char>
    decreases s.len(),
{
    if s.len() > 0 && (s[0] == ' ' || s[0] == '\n' || s[0] == '\t' || s[0] == '\r') {
        unspaced(s.skip(1))
    } else {
        s
    }
}

proof fn lemma_unspaced(s: Seq<char>)
    ensures
        unspaced(s).len() <= s.len(),
    decreases s.len(),
{
    if s.len() > 0 && (s[0] == ' ' || s[0] == '\n' || s[0] == '\t' || s[0] == '\r') {
        lemma_unspaced(s.skip(1));
    }
}

/// What follows `c`, where `s` begins with it.
pub open spec fn behind(s: Seq<char>, c: char) -> Option<Seq<char>> {
    let t = unspaced(s);
    if t.len() > 0 && t[0] == c {
        Some(t.skip(1))
    } else {
        None
    }
}

/// The value that `s` begins with, and what follows it.
pub open spec fn value_first(s: Seq<char>) -> Option<(Seq<char>, Seq<char>)> {
    let t = unspaced(s);
    match first_value(t) {
        Some(value) => if 0 < value.len() <= t.len() {
            Some((value, t.skip(value.len() as int)))
        } else {
            None
        },
        None => None,
    }
}

/// The member that `s` begins with, its name and the text of its value, and what
/// follows it.
pub open spec fn member_first(s: Seq<char>) -> Option<((Seq<char>, Seq<char>), Seq<char>)> {
    match value_first(s) {
        None => None,
        Some((key, rest)) => match (json_string(key), behind(rest, ':')) {
            (Some(name), Some(rest)) => match value_first(rest) {
                None => None,
                Some((value, rest)) => Some(((name, value), rest)),
            },
            _ => None,
        },
    }
}

/// What follows is shorter.
pub proof fn lemma_shorter(s: Seq<char>, c: char)
    ensures
        behind(s, c) matches Some(rest) ==> rest.len() < s.len(),
        value_first(s) matches Some((_, rest)) ==> rest.len() < s.len(),
        member_first(s) matches Some((_, rest)) ==> rest.len() < s.len(),
{
    lemma_unspaced(s);
    if let Some((_, rest)) = value_first(s) {
        lemma_unspaced(rest);
        if let Some(rest) = behind(rest, ':') {
            lemma_unspaced(rest);
        }
    }
}

/// The members `so_far` and those that `s` goes on with, up to the end of the
/// object.
pub open spec fn members_from(s: Seq<char>, so_far: Seq<(Seq<char>, Seq<char>)>) -> Option<
    Seq<(Seq<char>, Seq<char>)>,
>
    decreases s.len(),
{
    proof {
        lemma_shorter(s, ',');
        if let Some((_, rest)) = member_first(s) {
            lemma_shorter(rest, ',');
        }
    }
    match member_first(s) {
        None => None,
        Some((member, rest)) => match behind(rest, ',') {
            Some(rest) => members_from(rest, so_far.push(member)),
            None => if behind(rest, '}') is Some {
                Some(so_far.push(member))
            } else {
                None
            },
        },
    }
}

/// The members of the object that `text` writes, in order: each name with the
/// text of its value.
pub open spec fn members_of(text: Seq<char>) -> Option<Seq<(Seq<char>, Seq<char>)>> {
    match behind(text, '{') {
        None => None,
        Some(rest) => if behind(rest, '}') is Some {
            Some(Seq::empty())
        } else {
            members_from(rest, Seq::empty())
        },
    }
}

/// The items `so_far` and those that `s` goes on with, up to the end of the array.
pub open spec fn items_from(s: Seq<char>, so_far: Seq<Seq<char>>) -> Option<Seq<Seq<char>>>
    decreases s.len(),
{
    proof {
        lemma_shorter(s, ',');
        if let Some((_, rest)) = value_first(s) {
            lemma_shorter(rest, ',');
        }
    }
    match value_first(s) {
        None => None,
        Some((item, rest)) => match behind(rest, ',') {
            Some(rest) => items_from(rest, so_far.push(item)),
            None => if behind(rest, ']') is Some {
                Some(so_far.push(item))
            } else {
                None
            },
        },
    }
}

/// The texts of the items of the array that `text` writes.
pub open spec fn items_of(text: Seq<char>) -> Option<Seq<Seq<char>>> {
    match behind(text, '[') {
        None => None,
        Some(rest) => if behind(rest, ']') is Some {
            Some(Seq::empty())
        } else {
            items_from(rest, Seq::empty())
        },
    }
}

/// The members of the JSON object that `text` writes, in order, with every member
/// that has the name of another.
pub open spec fn json_object(text: Seq<char>) -> Option<Members> {
    if is_object(text) {
        members_of(text)
    } else {
        None
    }
}

/// The texts of the items of the JSON array that `text` writes.
pub open spec fn json_array(text: Seq<char>) -> Option<Seq<Seq<char>>> {
    if is_array(text) {
        items_of(text)
    } else {
        None
    }
}

fn skip_blanks(cs: &[char], from: usize) -> (r: usize)
    requires
        from <= cs.len(),
    ensures
        from <= r <= cs.len(),
        cs@.skip(r as int) == unspaced(cs@.skip(from as int)),
{
    let mut at: usize = from;
    while at < cs.len() && (cs[at] == ' ' || cs[at] == '\n' || cs[at] == '\t' || cs[at] == '\r')
        invariant
            from <= at <= cs.len(),
            unspaced(cs@.skip(at as int)) == unspaced(cs@.skip(from as int)),
        decreases cs.len() - at,
    {
        assert(cs@.skip(at as int)[0] == cs@[at as int]);
        assert(cs@.skip(at as int).skip(1) =~= cs@.skip(at + 1));
        at = at + 1;
    }
    if at < cs.len() {
        assert(cs@.skip(at as int)[0] == cs@[at as int]);
    }
    at
}

fn pass(cs: &[char], from: usize, c: char) -> (r: Option<usize>)
    requires
        from <= cs.len(),
    ensures
        match r {
            Some(at) => from < at <= cs.len() && behind(cs@.skip(from as int), c) == Some(
                cs@.skip(at as int),
            ),
            None => behind(cs@.skip(from as int), c) is None,
        },
{
    let at: usize = skip_blanks(cs, from);
    if at < cs.len() {
        assert(cs@.skip(at as int)[0] == cs@[at as int]);
        if cs[at] == c {
            assert(cs@.skip(at as int).skip(1) =~= cs@.skip(at + 1));
            return Some(at + 1);
        }
    }
    None
}

fn take_value(cs: &[char], from: usize) -> (r: Option<(String, usize)>)
    requires
        from <= cs.len(),
    ensures
        match r {
            Some((value, at)) => from < at <= cs.len() && value_first(cs@.skip(from as int))
                == Some((value@, cs@.skip(at as int))),
            None => value_first(cs@.skip(from as int)) is None,
        },
{
    let at: usize = skip_blanks(cs, from);
    let text = text_between(cs, at, cs.len());
    assert(text@ =~= cs@.skip(at as int));
    match read_first(text.as_str()) {
        None => None,
        Some(value) => {
            let len: usize = chars_of(value.as_str()).len();
            assert(value@.len() <= text@.len());
            assert(cs@.skip(at as int).skip(len as int) =~= cs@.skip(at + len));
            Some((value, at + len))
        },
    }
}

fn take_member(cs: &[char], from: usize) -> (r: Option<((String, String), usize)>)
    requires
        from <= cs.len(),
    ensures
        match r {
            Some((member, at)) => from < at <= cs.len() && member_first(cs@.skip(from as int))
                == Some(((member.0@, member.1@), cs@.skip(at as int))),
            None => member_first(cs@.skip(from as int)) is None,
        },
{
    let (key, at) = match take_value(cs, from) {
        Some(found) => found,
        None => return None,
    };
    let name = match read_string(key.as_str()) {
        Some(name) => name,
        None => return None,
    };
    let at: usize = match pass(cs, at, ':') {
        Some(at) => at,
        None => return None,
    };
    match take_value(cs, at) {
        Some((value, at)) => Some(((name, value), at)),
        None => None,
    }
}

fn take_members(text: &str) -> (r: Option<Vec<(String, String)>>)
    ensures
        match r {
            Some(list) => members_of(text@) == Some(member_views(list@)),
            None => members_of(text@) is None,
        },
{
    let cs = chars_of(text);
    let mut out: Vec<(String, String)> = Vec::new();
    assert(cs@.skip(0) =~= text@);
    assert(member_views(out@) =~= Seq::<(Seq<char>, Seq<char>)>::empty());
    let mut at: usize = match pass(cs.as_slice(), 0, '{') {
        Some(at) => at,
        None => return None,
    };
    if pass(cs.as_slice(), at, '}').is_some() {
        return Some(out);
    }
    loop
        invariant
            at <= cs.len(),
            members_of(text@) == members_from(cs@.skip(at as int), member_views(out@)),
        decreases cs.len() - at,
    {
        let (member, end) = match take_member(cs.as_slice(), at) {
            Some(found) => found,
            None => return None,
        };
        let ghost before = member_views(out@);
        let ghost shown = (member.0@, member.1@);
        out.push(member);
        assert(member_views(out@) =~= before.push(shown));
        match pass(cs.as_slice(), end, ',') {
            Some(next) => {
                at = next;
            },
            None => {
                if pass(cs.as_slice(), end, '}').is_some() {
                    return Some(out);
                }
                return None;
            },
        }
    }
}

fn take_items(text: &str) -> (r: Option<Vec<String>>)
    ensures
        match r {
            Some(list) => items_of(text@) == Some(text_views(list@)),
            None => items_of(text@) is None,
        },
{
    let cs = chars_of(text);
    let mut out: Vec<String> = Vec::new();
    assert(cs@.skip(0) =~= text@);
    assert(text_views(out@) =~= Seq::<Seq<char>>::empty());
    let mut at: usize = match pass(cs.as_slice(), 0, '[') {
        Some(at) => at,
        None => return None,
    };
    if pass(cs.as_slice(), at, ']').is_some() {
        return Some(out);
    }
    loop
        invariant
            at <= cs.len(),
            items_of(text@) == items_from(cs@.skip(at as int), text_views(out@)),
        decreases cs.len() - at,
    {
        let (item, end) = match take_value(cs.as_slice(), at) {
            Some(found) => found,
            None => return None,
        };
        let ghost before = text_views(out@);
        let ghost shown = item@;
        out.push(item);
        assert(text_views(out@) =~= before.push(shown));
        match pass(cs.as_slice(), end, ',') {
            Some(next) => {
                at = next;
            },
            None => {
                if pass(cs.as_slice(), end, ']').is_some() {
                    return Some(out);
                }
                return None;
            },
        }
    }
}

/// Takes the members of the JSON object that `text` writes, in order.
pub fn read_object(text: &str) -> (r: Option<Vec<(String, String)>>)
    ensures
        match r {
            Some(list) => json_object(text@) == Some(member_views(list@)),
            None => json_object(text@) is None,
        },
{
    if check_object(text) {
        take_members(text)
    } else {
        None
    }
}

/// Takes the texts of the items of the JSON array that `text` writes.
pub fn read_array(text: &str) -> (r: Option<Vec<String>>)
    ensures
        match r {
            Some(list) => json_array(text@) == Some(text_views(list@)),
            None => json_array(text@) is None,
        },
{
    if check_array(text) {
        take_items(text)
    } else {
        None
    }
}

/// What an object first holds under `name`.
pub open spec fn member(list: Seq<(Seq<char>, Seq<char>)>, name: Seq<char>) -> Option<Seq<char>>
    decreases list.len(),
{
    if list.len() == 0 {
        None
    } else if list[0].0 == name {
        Some(list[0].1)
    } else {
        member(list.skip(1), name)
    }
}

/// Takes what an object first holds under `name`.
pub fn find_member(list: &[(String, String)], name: &str) -> (r: Option<String>)
    ensures
        match r {
            Some(text) => member(member_views(list@), name@) == Some(text@),
            None => member(member_views(list@), name@) is None,
        },
{
    let ghost all = member_views(list@);
    let mut i: usize = 0;
    assert(all.skip(0) =~= all);
    while i < list.len()
        invariant
            i <= list.len(),
            all == member_views(list@),
            member(all, name@) == member(all.skip(i as int), name@),
        decreases list.len() - i,
    {
        if same_text(list[i].0.as_str(), name) {
            return Some(list[i].1.as_str().to_owned());
        }
        assert(all.skip(i as int).skip(1) =~= all.skip(i + 1));
        i = i + 1;
    }
    None
}

/// What an object last holds under `name`.
pub open spec fn last_member(list: Seq<(Seq<char>, Seq<char>)>, name: Seq<char>) -> Option<
    Seq<char>,
>
    decreases list.len(),
{
    if list.len() == 0 {
        None
    } else if list.last().0 == name {
        Some(list.last().1)
    } else {
        last_member(list.drop_last(), name)
    }
}

/// Takes what an object last holds under `name`.
pub fn find_last_member(list: &[(String, String)], name: &str) -> (r: Option<String>)
    ensures
        match r {
            Some(text) => last_member(member_views(list@), name@) == Some(text@),
            None => last_member(member_views(list@), name@) is None,
        },
{
    let ghost all = member_views(list@);
    let mut i: usize = list.len();
    assert(all.take(all.len() as int) =~= all);
    while i > 0
        invariant
            i <= list.len(),
            all == member_views(list@),
            last_member(all, name@) == last_member(all.take(i as int), name@),
        decreases i,
    {
        assert(all.take(i as int).last() == all[i - 1]);
        if same_text(list[i - 1].0.as_str(), name) {
            return Some(list[i - 1].1.as_str().to_owned());
        }
        assert(all.take(i as int).drop_last() =~= all.take(i - 1));
        i = i - 1;
    }
    None
}

/// Whether two members have the same one of `names`.
pub open spec fn repeated(list: Members, names: Seq<Seq<char>>) -> bool {
    exists|i: int, j: int|
        0 <= i < j < list.len() && (#[trigger] list[i]).0 == (#[trigger] list[j]).0
            && names.contains(list[i].0)
}

/// The names by their views.
pub open spec fn name_views(names: Seq<&str>) -> Seq<Seq<char>> {
    names.map_values(|name: &str| name@)
}

/// The fields of the record that `text` writes: an object in which no name comes
/// twice, or an array with at least the first `least` of them in order. An array
/// may go on behind them where `open` says so.
pub open spec fn record(
    text: Seq<char>,
    names: Seq<Seq<char>>,
    least: nat,
    open: bool,
) -> Option<Fields> {
    match json_object(text) {
        Some(list) => if repeated(list, names) {
            None
        } else {
            Some(Seq::new(names.len(), |i: int| member(list, names[i])))
        },
        None => match json_array(text) {
            Some(items) => if least <= items.len() && (open || items.len() <= names.len()) {
                Some(
                    Seq::new(
                        names.len(),
                        |i: int|
                            if i < items.len() {
                                Some(items[i])
                            } else {
                                None
                            },
                    ),
                )
            } else {
                None
            },
            None => None,
        },
    }
}

/// Fields by their views.
pub open spec fn field_views(fields: Seq<Option<String>>) -> Seq<Option<Seq<char>>> {
    fields.map_values(|field: Option<String>| opt_view(field))
}

/// Whether `name` is one of `names`.
fn is_named(names: &[&str], name: &str) -> (r: bool)
    ensures
        r == name_views(names@).contains(name@),
{
    let ghost want = name_views(names@);
    let mut i: usize = 0;
    while i < names.len()
        invariant
            i <= names.len(),
            want == name_views(names@),
            forall|k: int| 0 <= k < i ==> #[trigger] want[k] != name@,
        decreases names.len() - i,
    {
        if same_text(names[i], name) {
            assert(want[i as int] == name@);
            return true;
        }
        i = i + 1;
    }
    false
}

/// Whether two members have the same one of `names`.
fn has_repeated(list: &[(String, String)], names: &[&str]) -> (r: bool)
    ensures
        r == repeated(member_views(list@), name_views(names@)),
{
    let ghost all = member_views(list@);
    let ghost want = name_views(names@);
    let mut j: usize = 0;
    while j < list.len()
        invariant
            j <= list.len(),
            all == member_views(list@),
            want == name_views(names@),
            forall|a: int, b: int|
                0 <= a < b < j && (#[trigger] all[a]).0 == (#[trigger] all[b]).0
                    ==> !want.contains(all[a].0),
        decreases list.len() - j,
    {
        let name = list[j].0.as_str();
        assert(all[j as int].0 == name@);
        if is_named(names, name) {
            let mut i: usize = 0;
            while i < j
                invariant
                    i <= j < list.len(),
                    all == member_views(list@),
                    want == name_views(names@),
                    name@ == all[j as int].0,
                    want.contains(name@),
                    forall|a: int| 0 <= a < i ==> (#[trigger] all[a]).0 != name@,
                decreases j - i,
            {
                if same_text(list[i].0.as_str(), name) {
                    assert(all[i as int].0 == all[j as int].0);
                    return true;
                }
                i = i + 1;
            }
        }
        j = j + 1;
    }
    false
}

/// Takes the fields of the record that `text` writes.
pub fn read_record(text: &str, names: &[&str], least: usize, open: bool) -> (r: Option<
    Vec<Option<String>>,
>)
    ensures
        match r {
            Some(fields) => record(text@, name_views(names@), least as nat, open) == Some(
                field_views(fields@),
            ) && fields@.len() == names@.len(),
            None => record(text@, name_views(names@), least as nat, open) is None,
        },
{
    let ghost want = name_views(names@);
    if let Some(list) = read_object(text) {
        if has_repeated(list.as_slice(), names) {
            return None;
        }
        let ghost all = member_views(list@);
        let mut out: Vec<Option<String>> = Vec::new();
        let mut i: usize = 0;
        while i < names.len()
            invariant
                i <= names.len(),
                out@.len() == i,
                want == name_views(names@),
                all == member_views(list@),
                forall|k: int|
                    0 <= k < i ==> #[trigger] field_views(out@)[k] == member(all, want[k]),
            decreases names.len() - i,
        {
            let ghost before = field_views(out@);
            let field = find_member(list.as_slice(), names[i]);
            out.push(field);
            assert(field_views(out@).drop_last() =~= before);
            assert forall|k: int| 0 <= k < i + 1 implies #[trigger] field_views(out@)[k]
                == member(all, want[k]) by {
                if k < i {
                    assert(field_views(out@)[k] == before[k]);
                }
            }
            i = i + 1;
        }
        assert(field_views(out@) =~= Seq::new(want.len(), |k: int| member(all, want[k])));
        return Some(out);
    }
    let items = match read_array(text) {
        Some(items) => items,
        None => return None,
    };
    if items.len() < least || !open && items.len() > names.len() {
        return None;
    }
    let ghost all = text_views(items@);
    let mut out: Vec<Option<String>> = Vec::new();
    let mut i: usize = 0;
    while i < names.len()
        invariant
            i <= names.len(),
            out@.len() == i,
            all == text_views(items@),
            forall|k: int|
                0 <= k < i ==> #[trigger] field_views(out@)[k] == if k < all.len() {
                    Some(all[k])
                } else {
                    None
                },
        decreases names.len() - i,
    {
        let ghost before = field_views(out@);
        let field = if i < items.len() {
            Some(items[i].as_str().to_owned())
        } else {
            None
        };
        out.push(field);
        assert(field_views(out@).drop_last() =~= before);
        assert forall|k: int| 0 <= k < i + 1 implies #[trigger] field_views(out@)[k] == if k
            < all.len() {
            Some(all[k])
        } else {
            None
        } by {
            if k < i {
                assert(field_views(out@)[k] == before[k]);
            }
        }
        i = i + 1;
    }
    assert(field_views(out@) =~= Seq::new(
        want.len(),
        |k: int|
            if k < all.len() {
                Some(all[k])
            } else {
                None
            },
    ));
    Some(out)
}

/// The strings that the items write, where all of them write one.
pub open spec fn strings_in(items: Seq<Seq<char>>) -> Option<Seq<Seq<char>>>
    decreases items.len(),
{
    if items.len() == 0 {
        Some(Seq::empty())
    } else {
        match both(strings_in(items.drop_last()), json_string(items.last())) {
            Some((before, s)) => Some(before.push(s)),
            None => None,
        }
    }
}

/// The strings of the JSON array that `text` writes.
pub open spec fn json_strings(text: Seq<char>) -> Option<Seq<Seq<char>>> {
    match json_array(text) {
        None => None,
        Some(items) => strings_in(items),
    }
}

proof fn lemma_strings_fail(items: Seq<Seq<char>>, n: int)
    requires
        0 <= n <= items.len(),
        strings_in(items.take(n)) is None,
    ensures
        strings_in(items) is None,
    decreases items.len() - n,
{
    if n < items.len() {
        assert(items.take(n + 1).drop_last() =~= items.take(n));
        lemma_strings_fail(items, n + 1);
    } else {
        assert(items.take(n) =~= items);
    }
}

/// Takes the strings of the JSON array that `text` writes.
pub fn read_strings(text: &str) -> (r: Option<Vec<String>>)
    ensures
        match r {
            Some(list) => json_strings(text@) == Some(text_views(list@)),
            None => json_strings(text@) is None,
        },
{
    let items = match read_array(text) {
        Some(items) => items,
        None => return None,
    };
    let ghost all = text_views(items@);
    let mut out: Vec<String> = Vec::new();
    let mut i: usize = 0;
    assert(all.take(0) =~= Seq::<Seq<char>>::empty());
    assert(text_views(out@) =~= Seq::<Seq<char>>::empty());
    while i < items.len()
        invariant
            i <= items.len(),
            all == text_views(items@),
            json_array(text@) == Some(all),
            strings_in(all.take(i as int)) == Some(text_views(out@)),
        decreases items.len() - i,
    {
        assert(all.take(i + 1).drop_last() =~= all.take(i as int));
        assert(all.take(i + 1).last() == items@[i as int]@);
        let s = match read_string(items[i].as_str()) {
            Some(s) => s,
            None => {
                proof {
                    lemma_strings_fail(all, i + 1);
                }
                return None;
            },
        };
        let ghost before = text_views(out@);
        let ghost shown = s@;
        out.push(s);
        assert(text_views(out@) =~= before.push(shown));
        i = i + 1;
    }
    assert(all.take(all.len() as int) =~= all);
    Some(out)
}

/// Both values, where both are there.
pub open spec fn both<A, B>(a: Option<A>, b: Option<B>) -> Option<(A, B)> {
    match (a, b) {
        (Some(x), Some(y)) => Some((x, y)),
        _ => None,
    }
}

/// The string of a field that has to be there.
pub open spec fn string_field(field: Option<Seq<char>>) -> Option<Seq<char>> {
    match field {
        Some(text) => json_string(text),
        None => None,
    }
}

/// The string of a field, where it is there.
pub open spec fn opt_string(field: Option<Seq<char>>) -> Option<Option<Seq<char>>> {
    match field {
        Some(text) => match json_string(text) {
            Some(s) => Some(Some(s)),
            None => None,
        },
        None => Some(None),
    }
}

/// The number of a field, where it is there.
pub open spec fn opt_number(field: Option<Seq<char>>) -> Option<Option<u64>> {
    match field {
        Some(text) => match json_number(text) {
            Some(n) => Some(Some(n)),
            None => None,
        },
        None => Some(None),
    }
}

/// The truth value of a field, where it is there.
pub open spec fn opt_bool(field: Option<Seq<char>>) -> Option<Option<bool>> {
    match field {
        Some(text) => match json_bool(text) {
            Some(b) => Some(Some(b)),
            None => None,
        },
        None => Some(None),
    }
}

/// Takes the string of a field that has to be there.
pub fn take_string(field: &Option<String>) -> (r: Option<String>)
    ensures
        opt_view(r) == string_field(opt_view(*field)),
{
    match field {
        Some(text) => read_string(text.as_str()),
        None => None,
    }
}

/// Takes the string of a field, where it is there.
pub fn take_opt_string(field: &Option<String>) -> (r: Option<Option<String>>)
    ensures
        match r {
            Some(s) => opt_string(opt_view(*field)) == Some(opt_view(s)),
            None => opt_string(opt_view(*field)) is None,
        },
{
    match field {
        Some(text) => match read_string(text.as_str()) {
            Some(s) => Some(Some(s)),
            None => None,
        },
        None => Some(None),
    }
}

/// Takes the number of a field, where it is there.
pub fn take_opt_number(field: &Option<String>) -> (r: Option<Option<u64>>)
    ensures
        r == opt_number(opt_view(*field)),
{
    match field {
        Some(text) => match read_number(text.as_str()) {
            Some(n) => Some(Some(n)),
            None => None,
        },
        None => Some(None),
    }
}

/// Takes the truth value of a field, where it is there.
pub fn take_opt_bool(field: &Option<String>) -> (r: Option<Option<bool>>)
    ensures
        r == opt_bool(opt_view(*field)),
{
    match field {
        Some(text) => match read_bool(text.as_str()) {
            Some(b) => Some(Some(b)),
            None => None,
        },
        None => Some(None),
    }
}

} // verus!
