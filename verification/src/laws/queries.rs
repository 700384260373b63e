//! Which devices a rule selects by what Prometheus answers.

use crate::json::{json_array, json_object, json_string, last_member, member, Members};
use crate::laws::documents::{is_list, law_record, named_once, string_under};
use crate::remediator::prom::{
    all_strings, data_devices, deduped, device_label, item_device, item_devices, law_devices_once,
    reply_queried, response_of, selected, spec_query_url, without_slashes, ResponseView,
};
use crate::remediator::state::{fresh, spec_day_bucket};
use crate::text::{debug_text, decimal, text_views};
use vstd::prelude::*;

verus! {

/// The slashes at the end of an address do not matter, and nothing else is lost of it.
pub proof fn law_slashes(s: Seq<char>, slashes: Seq<char>)
    requires
        s.len() > 0 ==> s.last() != '/',
        forall|i: int| 0 <= i < slashes.len() ==> #[trigger] slashes[i] == '/',
    ensures
        without_slashes(s + slashes) == s,
    decreases slashes.len(),
{
    if slashes.len() == 0 {
        assert(s + slashes =~= s);
    } else {
        assert((s + slashes).last() == slashes[slashes.len() - 1]);
        assert((s + slashes).drop_last() =~= s + slashes.drop_last());
        law_slashes(s, slashes.drop_last());
    }
}

/// Of members with one name the last one counts.
pub proof fn law_last_member(list: Members, name: Seq<char>)
    ensures
        match last_member(list, name) {
            Some(text) => exists|i: int|
                0 <= i < list.len() && #[trigger] list[i] == (name, text) && forall|j: int|
                    i < j < list.len() ==> (#[trigger] list[j]).0 != name,
            None => forall|i: int| 0 <= i < list.len() ==> (#[trigger] list[i]).0 != name,
        },
    decreases list.len(),
{
    if list.len() > 0 {
        let n = list.len() - 1;
        assert(list.last() == list[n]);
        if list.last().0 == name {
            assert(list[n] == (name, list[n].1));
        } else {
            let rest = list.drop_last();
            law_last_member(rest, name);
            match last_member(rest, name) {
                Some(text) => {
                    let i = choose|i: int|
                        0 <= i < rest.len() && #[trigger] rest[i] == (name, text) && forall|j: int|
                            i < j < rest.len() ==> (#[trigger] rest[j]).0 != name;
                    assert(list[i] == rest[i]);
                    assert forall|j: int| i < j < list.len() implies (#[trigger] list[j]).0
                        != name by {
                        if j < n {
                            assert(list[j] == rest[j]);
                        }
                    }
                },
                None => {
                    assert forall|i: int| 0 <= i < list.len() implies (#[trigger] list[i]).0
                        != name by {
                        if i < n {
                            assert(list[i] == rest[i]);
                        }
                    }
                },
            }
        }
    }
}

/// A series is about the device that its label `device` names, all its labels being
/// strings; a series without labels, or without that one, is about none.
pub proof fn law_series(item: Seq<char>, list: Members)
    requires
        json_object(item) == Some(list),
        named_once(list),
    ensures
        member(list, "metric"@) is None ==> item_device(item) == Some(None::<Seq<char>>),
        member(list, "metric"@) matches Some(text) ==> match json_object(text) {
            None => item_device(item) is None,
            Some(labels) => {
                &&& item_device(item) is Some <==> forall|i: int|
                    0 <= i < labels.len() ==> json_string((#[trigger] labels[i]).1) is Some
                &&& item_device(item) matches Some(device) ==> device == match last_member(
                    labels,
                    "device"@,
                ) {
                    Some(value) => json_string(value),
                    None => None,
                }
            },
        },
{
    law_record(item, seq!["metric"@], 0, false, 0);
    if let Some(text) = member(list, "metric"@) {
        if let Some(labels) = json_object(text) {
            law_last_member(labels, "device"@);
            if let Some(value) = last_member(labels, "device"@) {
                let i = choose|i: int|
                    0 <= i < labels.len() && #[trigger] labels[i] == ("device"@, value)
                        && forall|j: int|
                        i < j < labels.len() ==> (#[trigger] labels[j]).0 != "device"@;
                if all_strings(labels) {
                    assert(json_string(labels[i].1) is Some);
                }
            }
        }
    }
}

/// The series of a result are one for each item, in order.
pub proof fn law_series_one_by_one(items: Seq<Seq<char>>)
    ensures
        match item_devices(items) {
            Some(list) => list.len() == items.len() && forall|i: int|
                0 <= i < items.len() ==> item_device(#[trigger] items[i]) == Some(list[i]),
            None => exists|i: int| 0 <= i < items.len() && item_device(#[trigger] items[i]) is None,
        },
    decreases items.len(),
{
    if items.len() > 0 {
        let rest = items.drop_last();
        law_series_one_by_one(rest);
        assert(items.last() == items[items.len() - 1]);
        match item_devices(rest) {
            Some(list) => {
                assert forall|i: int| 0 <= i < items.len() - 1 implies item_device(
                    #[trigger] items[i],
                ) == Some(list[i]) by {
                    assert(items[i] == rest[i]);
                }
            },
            None => {
                let i = choose|i: int|
                    0 <= i < rest.len() && item_device(#[trigger] rest[i]) is None;
                assert(items[i] == rest[i]);
            },
        }
    }
}

/// An answer is its status and, where it has data that is not null, the series that the
/// data lists under `result`.
pub proof fn law_answer(json: Seq<char>, list: Members)
    requires
        json_object(json) == Some(list),
        named_once(list),
    ensures
        string_under(list, "status"@) is None ==> response_of(json) is None,
        string_under(list, "status"@) matches Some(status) ==> match member(list, "data"@) {
            None => response_of(json) == Some(ResponseView { status, data: None }),
            Some(text) => if text == "null"@ {
                response_of(json) == Some(ResponseView { status, data: None })
            } else {
                match data_devices(text) {
                    None => response_of(json) is None,
                    Some(devices) => response_of(json) == Some(
                        ResponseView { status, data: Some(devices) },
                    ),
                }
            },
        },
{
    let names = seq!["status"@, "data"@];
    law_record(json, names, 1, false, 0);
    law_record(json, names, 1, false, 1);
}

/// The data of an answer lists its series under `result`; data without it lists none.
pub proof fn law_data(text: Seq<char>, list: Members)
    requires
        json_object(text) == Some(list),
        named_once(list),
    ensures
        match member(list, "result"@) {
            None => data_devices(text) == Some(Seq::<Option<Seq<char>>>::empty()),
            Some(result) => match json_array(result) {
                None => data_devices(text) is None,
                Some(items) => data_devices(text) == item_devices(items),
            },
        },
{
    law_record(text, seq!["result"@], 0, false, 0);
}

/// An answer that is no success, or has no data, selects nothing and says so; any
/// other selects the devices of its series, each once.
pub proof fn law_selection(resp: ResponseView)
    ensures
        match selected(resp) {
            Err(why) => {
                ||| resp.status != "success"@ && why == "prometheus query returned status="@
                    + debug_text(resp.status)
                ||| resp.status == "success"@ && resp.data is None && why
                    == "prometheus response missing \"data\""@
            },
            Ok(list) => {
                &&& resp.status == "success"@
                &&& resp.data is Some
                &&& list.no_duplicates()
                &&& forall|device: Seq<char>| #[trigger]
                    list.contains(device) <==> resp.data->0.contains(Some(device))
            },
        },
{
    if let Some(devices) = resp.data {
        law_devices_once(devices);
    }
}

/// Whether `a` comes before `b`: at the place `p`, up to which `b` has not come.
pub open spec fn comes_first(
    devices: Seq<Option<Seq<char>>>,
    a: Seq<char>,
    b: Seq<char>,
    p: int,
) -> bool {
    &&& 0 <= p < devices.len()
    &&& devices[p] == Some(a)
    &&& forall|q: int| 0 <= q <= p ==> #[trigger] devices[q] != Some(b)
}

/// The devices selected come in the order in which they first come among the series.
pub proof fn law_first_come_first(devices: Seq<Option<Seq<char>>>, i: int, j: int)
    requires
        0 <= i < j < deduped(devices).len(),
    ensures
        exists|p: int| comes_first(devices, deduped(devices)[i], deduped(devices)[j], p),
    decreases devices.len(),
{
    let rest = devices.drop_last();
    let before = deduped(rest);
    let all = deduped(devices);
    law_devices_once(rest);
    if j < before.len() {
        law_first_come_first(rest, i, j);
        let p = choose|p: int| comes_first(rest, before[i], before[j], p);
        assert(devices[p] == rest[p]);
        assert forall|q: int| 0 <= q <= p implies #[trigger] devices[q] != Some(all[j]) by {
            assert(devices[q] == rest[q]);
        }
        assert(comes_first(devices, all[i], all[j], p));
    } else {
        assert(before.contains(before[i]));
        assert(rest.contains(Some(before[i])));
        let p = choose|p: int| 0 <= p < rest.len() && rest[p] == Some(before[i]);
        assert(devices[p] == rest[p]);
        assert(!before.contains(all[j]));
        assert forall|q: int| 0 <= q <= p implies #[trigger] devices[q] != Some(all[j]) by {
            assert(devices[q] == rest[q]);
            if rest[q] == Some(all[j]) {
                assert(rest.contains(Some(all[j])));
            }
        }
        assert(comes_first(devices, all[i], all[j], p));
    }
}

/// A day is 86400 seconds, and is told by its number since the epoch; a device of
/// which nothing is known has not been rebooted.
pub proof fn law_days(secs: u64)
    ensures
        spec_day_bucket(secs) == decimal((secs / 86400) as nat),
        fresh().last_reboot_unix is None,
        fresh().reboots_today == 0,
        fresh().day.len() == 0,
{
}

/// Queries are sent to `/api/v1/query` behind the address, however many slashes the
/// address ends with.
pub proof fn law_query_url(s: Seq<char>, slashes: Seq<char>)
    requires
        s.len() > 0 ==> s.last() != '/',
        forall|i: int| 0 <= i < slashes.len() ==> #[trigger] slashes[i] == '/',
    ensures
        spec_query_url(s + slashes) == s + "/api/v1/query"@,
{
    law_slashes(s, slashes);
}

/// A reply selects devices only where its status is from 200 up to 299, its body is an
/// answer, and the answer is a success with data; they are then those of the answer.
/// Any other reply says what is wrong with it.
pub proof fn law_reply<C: Fn(&str) -> String>(
    code: u16,
    status: &str,
    body: &str,
    complaint: C,
    r: core::result::Result<Vec<String>, String>,
)
    requires
        reply_queried(code, status, body, complaint, r),
    ensures
        code < 200 || code > 299 ==> (r matches Err(e) && e@ == "prometheus http status "@ + status@
            + ": "@ + body@),
        200 <= code <= 299 ==> match response_of(body@) {
            None => r matches Err(e) && exists|why: String| #[trigger]
                call_ensures(complaint, (body,), why) && e@ == "invalid prometheus response json: "@
                    + why@,
            Some(resp) => {
                &&& r is Ok <==> resp.status == "success"@ && resp.data is Some
                &&& r matches Ok(list) ==> text_views(list@) == deduped(resp.data->0)
                &&& r matches Err(e) ==> e@ == if resp.status != "success"@ {
                    "prometheus query returned status="@ + debug_text(resp.status)
                } else {
                    "prometheus response missing \"data\""@
                }
            },
        },
{
}

/// A series, the data and an answer written as lists: each has its fields in order and
/// nothing behind them, and only the status cannot be left out.
pub proof fn law_answer_by_place(text: Seq<char>, items: Seq<Seq<char>>)
    requires
        is_list(text, items),
    ensures
        item_device(text) == if items.len() == 0 {
            Some(None::<Seq<char>>)
        } else if items.len() > 1 {
            None
        } else {
            match json_object(items[0]) {
                Some(labels) => device_label(labels),
                None => None,
            }
        },
        data_devices(text) == if items.len() == 0 {
            Some(Seq::<Option<Seq<char>>>::empty())
        } else if items.len() > 1 {
            None
        } else {
            match json_array(items[0]) {
                Some(series) => item_devices(series),
                None => None,
            }
        },
        items.len() == 0 || items.len() > 2 ==> response_of(text) is None,
        items.len() == 1 ==> response_of(text) == match json_string(items[0]) {
            Some(status) => Some(ResponseView { status, data: None }),
            None => None,
        },
        items.len() == 2 ==> (response_of(text) matches Some(resp) ==> Some(resp.status)
            == json_string(items[0]) && (if items[1] == "null"@ {
            resp.data is None
        } else {
            resp.data is Some && resp.data == data_devices(items[1])
        })),
{
    law_record(text, seq!["metric"@], 0, false, 0);
    law_record(text, seq!["result"@], 0, false, 0);
    let names = seq!["status"@, "data"@];
    law_record(text, names, 1, false, 0);
    law_record(text, names, 1, false, 1);
}

} // verus!
