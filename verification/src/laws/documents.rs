//! What is read from JSON documents and from the configuration.

use crate::config::{
    answered_with, config_of, configured, creds_read, device_of, devices_of, Answer, AnswerView,
    Config, CredsView, Device, DeviceView, PasswordSource, ResolvedCreds, SourceView,
};
use crate::error::{outcome_is, Error, ErrorView, Result};
use crate::json::{
    behind, first_value, items_from, items_of, json_array, json_bool, json_number, json_object,
    json_string, member, member_first, members_from, members_of, record, repeated, strings_in,
    toml_as_json, unspaced, value_first, Members,
};
use crate::ms::{data_in, read_as, words_of};
use crate::remediator::config::{remediator_fields, remediator_of, rule_of, rules_of, RuleView};
use crate::text::trim;
use vstd::prelude::*;

verus! {

/// Whether a character is a blank between the parts of a JSON text.
pub open spec fn is_blank(c: char) -> bool {
    c == ' ' || c == '\n' || c == '\t' || c == '\r'
}

/// Whether a text is blanks alone.
pub open spec fn all_blank(s: Seq<char>) -> bool {
    forall|i: int| 0 <= i < s.len() ==> is_blank(#[trigger] s[i])
}

/// Whether a text is a value that ends where it ends: a reader takes it, and no more,
/// whatever follows behind a blank or a mark.
pub open spec fn stands_alone(v: Seq<char>) -> bool {
    &&& v.len() > 0
    &&& !is_blank(v[0])
    &&& v[0] != '}' && v[0] != ']'
    &&& forall|rest: Seq<char>|
        (rest.len() > 0 && (is_blank(rest[0]) || rest[0] == ',' || rest[0] == ':' || rest[0] == '}'
            || rest[0] == ']')) ==> #[trigger] first_value(v + rest) == Some(v)
}

/// The items of an array, each behind `gap`, up to its end.
pub open spec fn items_text(items: Seq<Seq<char>>, gap: Seq<char>, end: Seq<char>) -> Seq<char>
    decreases items.len(),
{
    if items.len() <= 1 {
        gap + (items[0] + (gap + (seq![']'] + end)))
    } else {
        gap + (items[0] + (gap + (seq![','] + items_text(items.skip(1), gap, end))))
    }
}

/// An array with blanks between its parts.
pub open spec fn array_text(items: Seq<Seq<char>>, gap: Seq<char>, end: Seq<char>) -> Seq<char> {
    if items.len() == 0 {
        gap + (seq!['['] + (gap + (seq![']'] + end)))
    } else {
        gap + (seq!['['] + items_text(items, gap, end))
    }
}

/// The members of an object, each the text of its name and the text of its value, up
/// to its end.
pub open spec fn members_text(
    parts: Seq<(Seq<char>, Seq<char>)>,
    gap: Seq<char>,
    end: Seq<char>,
) -> Seq<char>
    decreases parts.len(),
{
    let (key, value) = parts[0];
    if parts.len() <= 1 {
        gap + (key + (gap + (seq![':'] + (gap + (value + (gap + (seq!['}'] + end)))))))
    } else {
        gap + (key + (gap + (seq![':'] + (gap + (value + (gap + (seq![','] + members_text(
            parts.skip(1),
            gap,
            end,
        ))))))))
    }
}

/// An object with blanks between its parts.
pub open spec fn object_text(
    parts: Seq<(Seq<char>, Seq<char>)>,
    gap: Seq<char>,
    end: Seq<char>,
) -> Seq<char> {
    if parts.len() == 0 {
        gap + (seq!['{'] + (gap + (seq!['}'] + end)))
    } else {
        gap + (seq!['{'] + members_text(parts, gap, end))
    }
}

proof fn lemma_gap(gap: Seq<char>, s: Seq<char>)
    requires
        all_blank(gap),
        s.len() > 0,
        !is_blank(s[0]),
    ensures
        unspaced(gap + s) == s,
    decreases gap.len(),
{
    if gap.len() == 0 {
        assert(gap + s =~= s);
    } else {
        assert(is_blank(gap[0]));
        assert((gap + s)[0] == gap[0]);
        assert((gap + s).skip(1) =~= gap.skip(1) + s);
        assert forall|i: int| 0 <= i < gap.skip(1).len() implies is_blank(
            #[trigger] gap.skip(1)[i],
        ) by {
            assert(is_blank(gap[i + 1]));
        }
        lemma_gap(gap.skip(1), s);
    }
}

proof fn lemma_mark(gap: Seq<char>, c: char, rest: Seq<char>, d: char)
    requires
        all_blank(gap),
        !is_blank(c),
    ensures
        behind(gap + (seq![c] + rest), c) == Some(rest),
        d != c ==> behind(gap + (seq![c] + rest), d) is None,
{
    let s = seq![c] + rest;
    lemma_gap(gap, s);
    assert(s[0] == c);
    assert(s.skip(1) =~= rest);
}

proof fn lemma_value(gap: Seq<char>, v: Seq<char>, rest: Seq<char>)
    requires
        all_blank(gap),
        stands_alone(v),
        rest.len() > 0,
        is_blank(rest[0]) || rest[0] == ',' || rest[0] == ':' || rest[0] == '}' || rest[0] == ']',
    ensures
        value_first(gap + (v + rest)) == Some((v, rest)),
        unspaced(gap + (v + rest)) == v + rest,
{
    let s = v + rest;
    assert(s[0] == v[0]);
    lemma_gap(gap, s);
    assert(first_value(v + rest) == Some(v));
    assert(s.skip(v.len() as int) =~= rest);
}

proof fn lemma_begins(gap: Seq<char>, c: char, rest: Seq<char>)
    requires
        all_blank(gap),
        c == ',' || c == ':' || c == '}' || c == ']',
    ensures
        ({
            let s = gap + (seq![c] + rest);
            s.len() > 0 && (is_blank(s[0]) || s[0] == c)
        }),
{
    let s = gap + (seq![c] + rest);
    if gap.len() > 0 {
        assert(is_blank(gap[0]));
        assert(s[0] == gap[0]);
    } else {
        assert(s[0] == c);
    }
}

proof fn lemma_items(items: Seq<Seq<char>>, gap: Seq<char>, end: Seq<char>, so_far: Seq<Seq<char>>)
    requires
        items.len() > 0,
        all_blank(gap),
        forall|i: int| 0 <= i < items.len() ==> stands_alone(#[trigger] items[i]),
    ensures
        items_from(items_text(items, gap, end), so_far) == Some(so_far + items),
        behind(items_text(items, gap, end), ']') is None,
    decreases items.len(),
{
    let v = items[0];
    assert(stands_alone(v));
    if items.len() == 1 {
        let rest = gap + (seq![']'] + end);
        lemma_begins(gap, ']', end);
        lemma_value(gap, v, rest);
        lemma_mark(gap, ']', end, ',');
        assert(so_far.push(v) =~= so_far + items);
    } else {
        let more = items.skip(1);
        let tail = items_text(more, gap, end);
        let rest = gap + (seq![','] + tail);
        lemma_begins(gap, ',', tail);
        lemma_value(gap, v, rest);
        lemma_mark(gap, ',', tail, ']');
        assert forall|i: int| 0 <= i < more.len() implies stands_alone(#[trigger] more[i]) by {
            assert(more[i] == items[i + 1]);
        }
        lemma_items(more, gap, end, so_far.push(v));
        assert(so_far.push(v) + more =~= so_far + items);
        assert(tail.len() < items_text(items, gap, end).len());
    }
}

/// An array is read as its items, in order, whatever blanks stand between its parts.
pub proof fn law_array_reads_back(items: Seq<Seq<char>>, gap: Seq<char>, end: Seq<char>)
    requires
        all_blank(gap),
        forall|i: int| 0 <= i < items.len() ==> stands_alone(#[trigger] items[i]),
    ensures
        items_of(array_text(items, gap, end)) == Some(items),
{
    if items.len() == 0 {
        lemma_mark(gap, '[', gap + (seq![']'] + end), ']');
        lemma_mark(gap, ']', end, ',');
        assert(items =~= Seq::empty());
    } else {
        lemma_mark(gap, '[', items_text(items, gap, end), ']');
        lemma_items(items, gap, end, Seq::empty());
        assert(Seq::empty() + items =~= items);
    }
}

/// The names and the texts of the values of members.
pub open spec fn named(parts: Seq<(Seq<char>, Seq<char>)>) -> Seq<(Seq<char>, Seq<char>)> {
    Seq::new(parts.len(), |i: int| (json_string(parts[i].0)->0, parts[i].1))
}

/// Whether members can stand in an object.
pub open spec fn are_members(parts: Seq<(Seq<char>, Seq<char>)>) -> bool {
    forall|i: int|
        0 <= i < parts.len() ==> {
            &&& stands_alone((#[trigger] parts[i]).0)
            &&& json_string(parts[i].0) is Some
            &&& stands_alone(parts[i].1)
        }
}

proof fn lemma_member(
    part: (Seq<char>, Seq<char>),
    gap: Seq<char>,
    rest: Seq<char>,
)
    requires
        all_blank(gap),
        stands_alone(part.0),
        stands_alone(part.1),
        json_string(part.0) is Some,
        rest.len() > 0,
        is_blank(rest[0]) || rest[0] == ',' || rest[0] == '}',
    ensures
        ({
            let s = gap + (part.0 + (gap + (seq![':'] + (gap + (part.1 + rest)))));
            &&& member_first(s) == Some(((json_string(part.0)->0, part.1), rest))
            &&& behind(s, '}') is None
        }),
{
    let tail = gap + (part.1 + rest);
    let after = gap + (seq![':'] + tail);
    lemma_begins(gap, ':', tail);
    lemma_value(gap, part.0, after);
    lemma_mark(gap, ':', tail, '}');
    lemma_value(gap, part.1, rest);
}

proof fn lemma_members(
    parts: Seq<(Seq<char>, Seq<char>)>,
    gap: Seq<char>,
    end: Seq<char>,
    so_far: Seq<(Seq<char>, Seq<char>)>,
)
    requires
        parts.len() > 0,
        all_blank(gap),
        are_members(parts),
    ensures
        members_from(members_text(parts, gap, end), so_far) == Some(so_far + named(parts)),
        behind(members_text(parts, gap, end), '}') is None,
    decreases parts.len(),
{
    let part = parts[0];
    let one = (json_string(part.0)->0, part.1);
    assert(stands_alone(parts[0].0));
    if parts.len() == 1 {
        let rest = gap + (seq!['}'] + end);
        lemma_begins(gap, '}', end);
        lemma_member(part, gap, rest);
        lemma_mark(gap, '}', end, ',');
        assert(so_far.push(one) =~= so_far + named(parts));
    } else {
        let more = parts.skip(1);
        let tail = members_text(more, gap, end);
        let rest = gap + (seq![','] + tail);
        lemma_begins(gap, ',', tail);
        lemma_member(part, gap, rest);
        lemma_mark(gap, ',', tail, '}');
        assert forall|i: int| 0 <= i < more.len() implies {
            &&& stands_alone((#[trigger] more[i]).0)
            &&& json_string(more[i].0) is Some
            &&& stands_alone(more[i].1)
        } by {
            assert(more[i] == parts[i + 1]);
        }
        lemma_members(more, gap, end, so_far.push(one));
        assert(so_far.push(one) + named(more) =~= so_far + named(parts));
    }
}

/// An object is read as its members, in order, each its name and the text of its
/// value, whatever blanks stand between its parts.
pub proof fn law_object_reads_back(
    parts: Seq<(Seq<char>, Seq<char>)>,
    gap: Seq<char>,
    end: Seq<char>,
)
    requires
        all_blank(gap),
        are_members(parts),
    ensures
        members_of(object_text(parts, gap, end)) == Some(named(parts)),
{
    if parts.len() == 0 {
        lemma_mark(gap, '{', gap + (seq!['}'] + end), '}');
        lemma_mark(gap, '}', end, ',');
        assert(named(parts) =~= Seq::empty());
    } else {
        lemma_mark(gap, '{', members_text(parts, gap, end), '}');
        lemma_members(parts, gap, end, Seq::empty());
        assert(Seq::empty() + named(parts) =~= named(parts));
    }
}

/// Whether no two members have one name.
pub open spec fn named_once(list: Members) -> bool {
    forall|i: int, j: int|
        0 <= i < j < list.len() ==> (#[trigger] list[i]).0 != (#[trigger] list[j]).0
}

/// What stands under a name is what the first member of that name holds.
pub proof fn law_member(list: Members, name: Seq<char>)
    ensures
        match member(list, name) {
            Some(text) => exists|i: int|
                0 <= i < list.len() && #[trigger] list[i] == (name, text) && forall|j: int|
                    0 <= j < i ==> (#[trigger] list[j]).0 != name,
            None => forall|i: int| 0 <= i < list.len() ==> (#[trigger] list[i]).0 != name,
        },
    decreases list.len(),
{
    if list.len() > 0 {
        if list[0].0 == name {
            assert(list[0] == (name, list[0].1));
        } else {
            let more = list.skip(1);
            law_member(more, name);
            match member(more, name) {
                Some(text) => {
                    let i = choose|i: int|
                        0 <= i < more.len() && #[trigger] more[i] == (name, text) && forall|j: int|
                            0 <= j < i ==> (#[trigger] more[j]).0 != name;
                    assert(list[i + 1] == more[i]);
                    assert forall|j: int| 0 <= j < i + 1 implies (#[trigger] list[j]).0 != name by {
                        if j > 0 {
                            assert(list[j] == more[j - 1]);
                        }
                    }
                },
                None => {
                    assert forall|i: int| 0 <= i < list.len() implies (#[trigger] list[i]).0
                        != name by {
                        if i > 0 {
                            assert(list[i] == more[i - 1]);
                        }
                    }
                },
            }
        }
    }
}

/// The fields of a record are found by name in an object whose members have one name
/// each, in whatever order they come and whatever others there are; and by place in
/// an array, which has to have the fields that cannot be left out.
pub proof fn law_record(text: Seq<char>, names: Seq<Seq<char>>, least: nat, open: bool, k: int)
    requires
        0 <= k < names.len(),
    ensures
        json_object(text) matches Some(list) ==> {
            &&& named_once(list) ==> record(text, names, least, open) is Some
            &&& record(text, names, least, open) matches Some(f) ==> f.len() == names.len() && f[k]
                == member(list, names[k])
            &&& (exists|i: int, j: int|
                0 <= i < j < list.len() && (#[trigger] list[i]).0 == names[k] && (
                #[trigger] list[j]).0 == names[k]) ==> record(text, names, least, open) is None
        },
        json_object(text) is None ==> match json_array(text) {
            None => record(text, names, least, open) is None,
            Some(items) => {
                &&& record(text, names, least, open) is Some <==> items.len() >= least && (open
                    || items.len() <= names.len())
                &&& record(text, names, least, open) matches Some(f) ==> f.len() == names.len()
                    && f[k] == if k < items.len() {
                    Some(items[k])
                } else {
                    None
                }
            },
        },
{
    if let Some(list) = json_object(text) {
        if exists|i: int, j: int|
            0 <= i < j < list.len() && (#[trigger] list[i]).0 == names[k] && (#[trigger] list[j]).0
                == names[k] {
            assert(names.contains(names[k]));
            assert(repeated(list, names));
        }
    }
}

/// The strings under `data` are those of the member `data`, in order.
pub proof fn law_strings_one_by_one(items: Seq<Seq<char>>)
    ensures
        match strings_in(items) {
            Some(list) => list.len() == items.len() && forall|i: int|
                0 <= i < items.len() ==> json_string(#[trigger] items[i]) == Some(list[i]),
            None => exists|i: int| 0 <= i < items.len() && json_string(#[trigger] items[i]) is None,
        },
    decreases items.len(),
{
    if items.len() > 0 {
        let rest = items.drop_last();
        law_strings_one_by_one(rest);
        assert(items.last() == items[items.len() - 1]);
        match strings_in(rest) {
            Some(list) => {
                assert forall|i: int| 0 <= i < items.len() - 1 implies json_string(
                    #[trigger] items[i],
                ) == Some(list[i]) by {
                    assert(items[i] == rest[i]);
                }
            },
            None => {
                let i = choose|i: int|
                    0 <= i < rest.len() && json_string(#[trigger] rest[i]) is None;
                assert(items[i] == rest[i]);
            },
        }
    }
}

/// The words of an answer stand under `data`.
pub proof fn law_answer_under_data(body: Seq<char>, list: Members)
    requires
        json_object(body) == Some(list),
        named_once(list),
    ensures
        data_in(body) == match member(list, "data"@) {
            Some(text) => match json_array(text) {
                Some(items) => strings_in(items),
                None => None,
            },
            None => None,
        },
{
    law_record(body, seq!["data"@], 1, false, 0);
    assert(seq!["data"@][0] == "data"@);
}

/// Whether what stands under a name, if anything does, is a string.
pub open spec fn may_be_string(list: Members, name: Seq<char>) -> bool {
    member(list, name) matches Some(text) ==> json_string(text) is Some
}

/// Whether what stands under a name, if anything does, is a number.
pub open spec fn may_be_number(list: Members, name: Seq<char>) -> bool {
    member(list, name) matches Some(text) ==> json_number(text) is Some
}

/// Whether what stands under a name, if anything does, is a truth value.
pub open spec fn may_be_bool(list: Members, name: Seq<char>) -> bool {
    member(list, name) matches Some(text) ==> json_bool(text) is Some
}

/// The string under a name.
pub open spec fn string_under(list: Members, name: Seq<char>) -> Option<Seq<char>> {
    match member(list, name) {
        Some(text) => json_string(text),
        None => None,
    }
}

/// The number under a name, or a default where there is none.
pub open spec fn number_under(list: Members, name: Seq<char>, default: u64) -> u64 {
    match member(list, name) {
        Some(text) => json_number(text)->0,
        None => default,
    }
}

/// The truth value under a name, or a default where there is none.
pub open spec fn bool_under(list: Members, name: Seq<char>, default: bool) -> bool {
    match member(list, name) {
        Some(text) => json_bool(text)->0,
        None => default,
    }
}

/// A device is its fields by name: `name` and `host` have to be there.
pub proof fn law_device_by_name(text: Seq<char>, list: Members)
    requires
        json_object(text) == Some(list),
        named_once(list),
    ensures
        device_of(text) is Some <==> string_under(list, "name"@) is Some && string_under(
            list,
            "host"@,
        ) is Some && may_be_string(list, "username"@) && may_be_string(list, "password"@)
            && may_be_string(list, "password_env"@) && may_be_string(list, "password_file"@),
        device_of(text) matches Some(dev) ==> {
            &&& Some(dev.name) == string_under(list, "name"@)
            &&& Some(dev.host) == string_under(list, "host"@)
            &&& dev.username == string_under(list, "username"@)
            &&& dev.password == string_under(list, "password"@)
            &&& dev.password_env == string_under(list, "password_env"@)
            &&& dev.password_file == string_under(list, "password_file"@)
        },
{
    let names = seq!["name"@, "host"@, "username"@, "password"@, "password_env"@, "password_file"@];
    law_record(text, names, 6, true, 0);
    law_record(text, names, 6, true, 1);
    law_record(text, names, 6, true, 2);
    law_record(text, names, 6, true, 3);
    law_record(text, names, 6, true, 4);
    law_record(text, names, 6, true, 5);
}

/// The devices are one for each item, in order.
pub proof fn law_devices_one_by_one(items: Seq<Seq<char>>)
    ensures
        match devices_of(items) {
            Some(list) => list.len() == items.len() && forall|i: int|
                0 <= i < items.len() ==> device_of(#[trigger] items[i]) == Some(list[i]),
            None => exists|i: int| 0 <= i < items.len() && device_of(#[trigger] items[i]) is None,
        },
    decreases items.len(),
{
    if items.len() > 0 {
        let rest = items.drop_last();
        law_devices_one_by_one(rest);
        assert(items.last() == items[items.len() - 1]);
        match devices_of(rest) {
            Some(list) => {
                assert forall|i: int| 0 <= i < items.len() - 1 implies device_of(
                    #[trigger] items[i],
                ) == Some(list[i]) by {
                    assert(items[i] == rest[i]);
                }
            },
            None => {
                let i = choose|i: int| 0 <= i < rest.len() && device_of(#[trigger] rest[i]) is None;
                assert(items[i] == rest[i]);
            },
        }
    }
}

/// The devices under `device`, none where there is no such member.
pub open spec fn devices_under(list: Members) -> Option<Seq<DeviceView>> {
    match member(list, "device"@) {
        Some(text) => match json_array(text) {
            Some(items) => devices_of(items),
            None => None,
        },
        None => Some(Seq::empty()),
    }
}

/// A configuration is its fields by name, and what is left out has its default: to
/// listen at port 9420 of every address, eight seconds for a request, three to
/// connect, nine for a scrape, and no devices.
pub proof fn law_config_by_name(toml: Seq<char>, json: Seq<char>, list: Members)
    requires
        toml_as_json(toml) == Some(json),
        json_object(json) == Some(list),
        named_once(list),
    ensures
        config_of(toml) is Some <==> may_be_string(list, "listen"@) && may_be_number(
            list,
            "request_timeout_secs"@,
        ) && may_be_number(list, "connect_timeout_secs"@) && may_be_number(
            list,
            "scrape_deadline_secs"@,
        ) && may_be_string(list, "username"@) && may_be_string(list, "password"@) && may_be_string(
            list,
            "password_env"@,
        ) && may_be_string(list, "password_file"@) && devices_under(list) is Some,
        config_of(toml) matches Some(cfg) ==> {
            &&& cfg.listen == match string_under(list, "listen"@) {
                Some(given) => given,
                None => "0.0.0.0:9420"@,
            }
            &&& cfg.request_timeout_secs == number_under(list, "request_timeout_secs"@, 8)
            &&& cfg.connect_timeout_secs == number_under(list, "connect_timeout_secs"@, 3)
            &&& cfg.scrape_deadline_secs == number_under(list, "scrape_deadline_secs"@, 9)
            &&& cfg.username == string_under(list, "username"@)
            &&& cfg.password == string_under(list, "password"@)
            &&& cfg.password_env == string_under(list, "password_env"@)
            &&& cfg.password_file == string_under(list, "password_file"@)
            &&& Some(cfg.device) == devices_under(list)
        },
{
    let names = seq![
        "listen"@,
        "request_timeout_secs"@,
        "connect_timeout_secs"@,
        "scrape_deadline_secs"@,
        "username"@,
        "password"@,
        "password_env"@,
        "password_file"@,
        "device"@,
    ];
    law_record(json, names, 9, true, 0);
    law_record(json, names, 9, true, 1);
    law_record(json, names, 9, true, 2);
    law_record(json, names, 9, true, 3);
    law_record(json, names, 9, true, 4);
    law_record(json, names, 9, true, 5);
    law_record(json, names, 9, true, 6);
    law_record(json, names, 9, true, 7);
    law_record(json, names, 9, true, 8);
}

/// A document that is no TOML gives no configuration.
pub proof fn law_no_document_no_config(toml: Seq<char>)
    requires
        toml_as_json(toml) is None,
    ensures
        config_of(toml) is None,
        remediator_of(toml) is None,
{
}

/// A rule is its name and its expression.
pub proof fn law_rule_by_name(text: Seq<char>, list: Members)
    requires
        json_object(text) == Some(list),
        named_once(list),
    ensures
        rule_of(text) is Some <==> string_under(list, "name"@) is Some && string_under(
            list,
            "expr"@,
        ) is Some,
        rule_of(text) matches Some(rule) ==> Some(rule.name) == string_under(list, "name"@) && Some(
            rule.expr,
        ) == string_under(list, "expr"@),
{
    let names = seq!["name"@, "expr"@];
    law_record(text, names, 2, true, 0);
    law_record(text, names, 2, true, 1);
}

/// The rules are one for each item, in order.
pub proof fn law_rules_one_by_one(items: Seq<Seq<char>>)
    ensures
        match rules_of(items) {
            Some(list) => list.len() == items.len() && forall|i: int|
                0 <= i < items.len() ==> rule_of(#[trigger] items[i]) == Some(list[i]),
            None => exists|i: int| 0 <= i < items.len() && rule_of(#[trigger] items[i]) is None,
        },
    decreases items.len(),
{
    if items.len() > 0 {
        let rest = items.drop_last();
        law_rules_one_by_one(rest);
        assert(items.last() == items[items.len() - 1]);
        match rules_of(rest) {
            Some(list) => {
                assert forall|i: int| 0 <= i < items.len() - 1 implies rule_of(#[trigger] items[i])
                    == Some(list[i]) by {
                    assert(items[i] == rest[i]);
                }
            },
            None => {
                let i = choose|i: int| 0 <= i < rest.len() && rule_of(#[trigger] rest[i]) is None;
                assert(items[i] == rest[i]);
            },
        }
    }
}

/// The rules under `rule`, none where there is no such member.
pub open spec fn rules_under(list: Members) -> Option<Seq<RuleView>> {
    match member(list, "rule"@) {
        Some(text) => match json_array(text) {
            Some(items) => rules_of(items),
            None => None,
        },
        None => Some(Seq::empty()),
    }
}

/// The remediator's configuration is the fields of the table `remediator` by name, and
/// what is left out has its default: a poll every 60 seconds, 1800 seconds of cooldown,
/// four reboots a day, to listen at port 9421 of every address, a dry run, few words
/// and no rules. The address of Prometheus has to be there.
pub proof fn law_remediator_by_name(
    toml: Seq<char>,
    json: Seq<char>,
    tables: Members,
    text: Seq<char>,
    list: Members,
)
    requires
        toml_as_json(toml) == Some(json),
        json_object(json) == Some(tables),
        named_once(tables),
        member(tables, "remediator"@) == Some(text),
        json_object(text) == Some(list),
        named_once(list),
    ensures
        remediator_of(toml) is Some <==> string_under(list, "prometheus_url"@) is Some
            && may_be_number(list, "poll_interval_secs"@) && may_be_number(list, "cooldown_secs"@)
            && may_be_number(list, "max_reboots_per_day"@) && number_under(
            list,
            "max_reboots_per_day"@,
            4,
        ) <= 0xffff_ffff && may_be_string(list, "listen"@) && may_be_bool(list, "dry_run"@)
            && may_be_bool(list, "verbose"@) && rules_under(list) is Some,
        remediator_of(toml) matches Some(cfg) ==> {
            &&& Some(cfg.prometheus_url) == string_under(list, "prometheus_url"@)
            &&& cfg.poll_interval_secs == number_under(list, "poll_interval_secs"@, 60)
            &&& cfg.cooldown_secs == number_under(list, "cooldown_secs"@, 1800)
            &&& cfg.max_reboots_per_day == number_under(list, "max_reboots_per_day"@, 4)
            &&& cfg.listen == match string_under(list, "listen"@) {
                Some(given) => given,
                None => "0.0.0.0:9421"@,
            }
            &&& cfg.dry_run == bool_under(list, "dry_run"@, true)
            &&& cfg.verbose == bool_under(list, "verbose"@, false)
            &&& Some(cfg.rule) == rules_under(list)
        },
{
    let outer = seq!["remediator"@];
    law_record(json, outer, 1, true, 0);
    let names = seq![
        "prometheus_url"@,
        "poll_interval_secs"@,
        "cooldown_secs"@,
        "max_reboots_per_day"@,
        "listen"@,
        "dry_run"@,
        "verbose"@,
        "rule"@,
    ];
    law_record(text, names, 1, true, 0);
    law_record(text, names, 1, true, 1);
    law_record(text, names, 1, true, 2);
    law_record(text, names, 1, true, 3);
    law_record(text, names, 1, true, 4);
    law_record(text, names, 1, true, 5);
    law_record(text, names, 1, true, 6);
    law_record(text, names, 1, true, 7);
}

/// Without the table `remediator` there is no configuration of the remediator.
pub proof fn law_no_table_no_remediator(toml: Seq<char>, json: Seq<char>, tables: Members)
    requires
        toml_as_json(toml) == Some(json),
        json_object(json) == Some(tables),
        member(tables, "remediator"@) is None,
    ensures
        remediator_of(toml) is None,
{
    law_record(json, seq!["remediator"@], 1, true, 0);
}

/// A device is asked as the user it names, else the user named for all, else `admin`;
/// with the first password that is given of: its own, that in the variable it names,
/// that in the file it names, and then the same three for all devices. What is in a
/// file counts without the white space around it.
pub proof fn law_credentials(cfg: Config, dev: Device, answer: AnswerView)
    ensures
        ({
            let username = if dev.username is Some {
                dev.username->0@
            } else if cfg.username is Some {
                cfg.username->0@
            } else {
                "admin"@
            };
            let own = dev.password is Some || dev.password_env is Some || dev.password_file is Some;
            let (inline, env, file) = if own {
                (dev.password, dev.password_env, dev.password_file)
            } else {
                (cfg.password, cfg.password_env, cfg.password_file)
            };
            cfg.resolved(dev, answer) == if inline is Some {
                Ok::<CredsView, ErrorView>(CredsView { username, password: inline->0@ })
            } else if env is Some {
                match answer {
                    Ok(text) => Ok(CredsView { username, password: text }),
                    Err(_) => Err(ErrorView::Config("env "@ + env->0@ + " not set"@)),
                }
            } else if file is Some {
                match answer {
                    Ok(text) => Ok(CredsView { username, password: trim(text) }),
                    Err(why) => Err(
                        ErrorView::Config("password_file "@ + file->0@ + ": "@ + why),
                    ),
                }
            } else {
                Err(ErrorView::Config("no password configured"@))
            }
        }),
{
}

/// Whether a text is a list and no object.
pub open spec fn is_list(text: Seq<char>, items: Seq<Seq<char>>) -> bool {
    json_object(text) is None && json_array(text) == Some(items)
}

/// A device written as a list has all of its six fields, in order; what follows them
/// does not matter.
pub proof fn law_device_by_place(text: Seq<char>, items: Seq<Seq<char>>)
    requires
        is_list(text, items),
    ensures
        device_of(text) is Some <==> items.len() >= 6 && forall|i: int|
            0 <= i < 6 ==> json_string(#[trigger] items[i]) is Some,
        device_of(text) matches Some(dev) ==> {
            &&& Some(dev.name) == json_string(items[0])
            &&& Some(dev.host) == json_string(items[1])
            &&& dev.username == json_string(items[2])
            &&& dev.password == json_string(items[3])
            &&& dev.password_env == json_string(items[4])
            &&& dev.password_file == json_string(items[5])
        },
{
    let names = seq!["name"@, "host"@, "username"@, "password"@, "password_env"@, "password_file"@];
    law_record(text, names, 6, true, 0);
    law_record(text, names, 6, true, 1);
    law_record(text, names, 6, true, 2);
    law_record(text, names, 6, true, 3);
    law_record(text, names, 6, true, 4);
    law_record(text, names, 6, true, 5);
    if items.len() >= 6 && device_of(text) is Some {
        assert forall|i: int| 0 <= i < 6 implies json_string(#[trigger] items[i]) is Some by {
            assert(i == 0 || i == 1 || i == 2 || i == 3 || i == 4 || i == 5);
        }
    }
}

/// A rule written as a list has its name and its expression; what follows them does not
/// matter.
pub proof fn law_rule_by_place(text: Seq<char>, items: Seq<Seq<char>>)
    requires
        is_list(text, items),
    ensures
        rule_of(text) is Some <==> items.len() >= 2 && json_string(items[0]) is Some && json_string(
            items[1],
        ) is Some,
        rule_of(text) matches Some(rule) ==> Some(rule.name) == json_string(items[0]) && Some(
            rule.expr,
        ) == json_string(items[1]),
{
    let names = seq!["name"@, "expr"@];
    law_record(text, names, 2, true, 0);
    law_record(text, names, 2, true, 1);
}

/// An answer written as a list is the list of its words and nothing else.
pub proof fn law_answer_by_place(body: Seq<char>, items: Seq<Seq<char>>)
    requires
        is_list(body, items),
    ensures
        data_in(body) == if items.len() == 1 {
            match json_array(items[0]) {
                Some(texts) => strings_in(texts),
                None => None,
            }
        } else {
            None
        },
{
    law_record(body, seq!["data"@], 1, false, 0);
}

/// The remediator's table written as a list begins with the address of Prometheus, and
/// goes on with as many of the other fields as there are, in order.
pub proof fn law_remediator_by_place(text: Seq<char>, items: Seq<Seq<char>>)
    requires
        is_list(text, items),
    ensures
        items.len() == 0 ==> remediator_fields(text) is None,
        remediator_fields(text) matches Some(f) ==> {
            &&& items.len() >= 1
            &&& Some(f.prometheus_url) == json_string(items[0])
            &&& f.poll_interval_secs == if items.len() >= 2 {
                json_number(items[1])
            } else {
                None
            }
            &&& f.cooldown_secs == if items.len() >= 3 {
                json_number(items[2])
            } else {
                None
            }
            &&& items.len() < 4 ==> f.max_reboots_per_day is None
            &&& items.len() >= 4 ==> (f.max_reboots_per_day matches Some(n) && json_number(items[3])
                == Some(n as u64))
            &&& f.listen == if items.len() >= 5 {
                json_string(items[4])
            } else {
                None
            }
            &&& f.dry_run == if items.len() >= 6 {
                json_bool(items[5])
            } else {
                None
            }
            &&& f.verbose == if items.len() >= 7 {
                json_bool(items[6])
            } else {
                None
            }
            &&& items.len() < 8 ==> f.rule.len() == 0
            &&& items.len() >= 8 ==> (json_array(items[7]) matches Some(rules) && rules_of(rules)
                == Some(f.rule))
        },
        items.len() == 1 && json_string(items[0]) is Some ==> remediator_fields(text) is Some,
{
    let names = seq![
        "prometheus_url"@,
        "poll_interval_secs"@,
        "cooldown_secs"@,
        "max_reboots_per_day"@,
        "listen"@,
        "dry_run"@,
        "verbose"@,
        "rule"@,
    ];
    law_record(text, names, 1, true, 0);
    law_record(text, names, 1, true, 1);
    law_record(text, names, 1, true, 2);
    law_record(text, names, 1, true, 3);
    law_record(text, names, 1, true, 4);
    law_record(text, names, 1, true, 5);
    law_record(text, names, 1, true, 6);
    law_record(text, names, 1, true, 7);
}

/// What is read of an answer: the words of its strings, or what is wrong with them;
/// where it has no strings, that it is no such answer, in the words that there are for
/// it.
pub proof fn law_answer_read<C: Fn(&str) -> String>(
    body: &str,
    complaint: C,
    r: Result<Vec<u32>>,
)
    requires
        read_as(body, complaint, r),
    ensures
        data_in(body@) matches Some(texts) ==> match (words_of(texts), r) {
            (Ok(words), Ok(read)) => read@ == words,
            (Err(e), Err(given)) => given@ == e,
            _ => false,
        },
        data_in(body@) is None ==> (r matches Err(Error::Decode { cmd, reason }) && cmd@ == "ms"@
            && exists|why: String| #[trigger]
            call_ensures(complaint, (body,), why) && reason@ == "json: "@ + why@),
{
    if data_in(body@) is None {
        let why = choose|why: String| #[trigger]
            call_ensures(complaint, (body,), why) && (r matches Err(e) && e@
                == crate::ms::ms_error("json: "@ + why@));
        assert(call_ensures(complaint, (body,), why));
    }
}

/// The credentials of a device come from its password source alone: the password
/// itself, or what is read for the variable or the file that the source names.
pub proof fn law_credentials_read<F: Fn(&PasswordSource) -> Answer>(
    cfg: Config,
    dev: Device,
    read: F,
    r: Result<ResolvedCreds>,
)
    requires
        creds_read(cfg, dev, read, r),
    ensures
        ({
            let own = dev.password is Some || dev.password_env is Some || dev.password_file is Some;
            let (inline, env, file) = if own {
                (dev.password, dev.password_env, dev.password_file)
            } else {
                (cfg.password, cfg.password_env, cfg.password_file)
            };
            &&& inline matches Some(password) ==> (r matches Ok(creds) && creds.password@
                == password@)
            &&& inline is None && env is None && file is None ==> (r matches Err(Error::Config(why))
                && why@ == "no password configured"@)
            &&& inline is None && (env is Some || file is Some) ==> exists|
                source: PasswordSource,
                answer: Answer,
            |
                #![trigger call_ensures(read, (&source,), answer)]
                {
                    &&& call_ensures(read, (&source,), answer)
                    &&& env matches Some(var) ==> source@ == SourceView::Env(var@)
                    &&& env is None ==> source@ == SourceView::File(file->0@)
                    &&& r is Ok <==> answer is Ok
                    &&& r matches Ok(creds) ==> creds.password@ == if env is Some {
                        answer->Ok_0@
                    } else {
                        trim(answer->Ok_0@)
                    }
                }
        }),
{
    let any: AnswerView = Ok(Seq::empty());
    if cfg.needs_reading(dev) {
        let (source, answer) = choose|source: PasswordSource, answer: Answer|
            answered_with(cfg, dev, read, source, answer, r);
        assert(answered_with(cfg, dev, read, source, answer, r));
        assert(call_ensures(read, (&source,), answer));
    } else {
        assert(outcome_is(r, cfg.resolved(dev, any)));
    }
}

/// A text is read as the configuration that it writes; one that writes none is an error
/// of configuration, in the words that there are for it.
pub proof fn law_config_read<C: Fn(&str) -> String>(text: &str, complaint: C, r: Result<Config>)
    requires
        configured(text, complaint, r),
    ensures
        r is Ok <==> config_of(text@) is Some,
        r matches Ok(cfg) ==> config_of(text@) == Some(cfg@),
        r matches Err(e) ==> (e matches Error::Config(why) && call_ensures(
            complaint,
            (text,),
            why,
        )),
{
}

} // verus!
