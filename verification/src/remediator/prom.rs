//! What Prometheus answers to a rule: which devices it selects.

use crate::json::{
    both, field_views, find_last_member, json_array, json_object, json_string, last_member,
    member_views, name_views, opt_string, opt_view, read_array, read_object, read_record,
    read_string, record, string_field, take_opt_string, take_string, Fields, Members,
};
use crate::text::{
    chars_of, debug_text, holds_text, quoted, same_text, text_between, text_views,
};
use vstd::prelude::*;

verus! {

/// `s` without the slashes it ends with.
pub open spec fn without_slashes(s: Seq<char>) -> Seq<char>
    decreases s.len(),
{
    if s.len() > 0 && s.last() == '/' {
        without_slashes(s.drop_last())
    } else {
        s
    }
}

/// Where queries are sent.
pub open spec fn spec_query_url(base: Seq<char>) -> Seq<char> {
    without_slashes(base) + "/api/v1/query"@
}

/// Where queries are sent.
pub fn query_url(base: &str) -> (r: String)
    ensures
        r@ == without_slashes(base@) + "/api/v1/query"@,
        r@ == spec_query_url(base@),
{
    let cs = chars_of(base);
    let mut to: usize = cs.len();
    assert(cs@.subrange(0, to as int) =~= cs@);
    while to > 0 && cs[to - 1] == '/'
        invariant
            to <= cs.len(),
            without_slashes(cs@) == without_slashes(cs@.subrange(0, to as int)),
        decreases to,
    {
        assert(cs@.subrange(0, to as int).drop_last() =~= cs@.subrange(0, to - 1));
        to = to - 1;
    }
    text_between(cs.as_slice(), 0, to).concat("/api/v1/query")
}

/// Whether every label of a series is a string.
pub open spec fn all_strings(labels: Members) -> bool {
    forall|i: int| 0 <= i < labels.len() ==> json_string((#[trigger] labels[i]).1) is Some
}

/// The device that a series is about, if its labels name one. Of labels with one
/// name the last one counts. A series with a label that is no string is refused.
pub open spec fn device_label(labels: Members) -> Option<Option<Seq<char>>> {
    if all_strings(labels) {
        opt_string(last_member(labels, "device"@))
    } else {
        None
    }
}

/// The device that an item of the result is about.
pub open spec fn item_device(item: Seq<char>) -> Option<Option<Seq<char>>> {
    match record(item, seq!["metric"@], 0, false) {
        None => None,
        Some(f) => match f[0] {
            None => Some(None),
            Some(text) => match json_object(text) {
                None => None,
                Some(labels) => device_label(labels),
            },
        },
    }
}

/// The devices that the items are about, one for each, where none is refused.
pub open spec fn item_devices(items: Seq<Seq<char>>) -> Option<Fields>
    decreases items.len(),
{
    if items.len() == 0 {
        Some(Seq::empty())
    } else {
        match item_devices(items.drop_last()) {
            None => None,
            Some(before) => match item_device(items.last()) {
                None => None,
                Some(device) => Some(before.push(device)),
            },
        }
    }
}

/// The devices that the data of an answer is about.
pub open spec fn data_devices(data: Seq<char>) -> Option<Fields> {
    match record(data, seq!["result"@], 0, false) {
        None => None,
        Some(f) => match f[0] {
            None => Some(Seq::empty()),
            Some(text) => match json_array(text) {
                None => None,
                Some(items) => item_devices(items),
            },
        },
    }
}

/// The data of an answer, where there is any.
pub open spec fn data_field(field: Option<Seq<char>>) -> Option<Option<Fields>> {
    match field {
        None => Some(None),
        Some(text) => if text == "null"@ {
            Some(None)
        } else {
            match data_devices(text) {
                None => None,
                Some(devices) => Some(Some(devices)),
            }
        },
    }
}

/// An answer: its status, and for each series of its data the device that the
/// series is about.
pub struct QueryResponse {
    pub status: String,
    pub data: Option<Vec<Option<String>>>,
}

/// A [`QueryResponse`] with its texts as character sequences.
#[verifier::ext_equal]
pub struct ResponseView {
    pub status: Seq<char>,
    pub data: Option<Seq<Option<Seq<char>>>>,
}

impl View for QueryResponse {
    type V = ResponseView;

    open spec fn view(&self) -> ResponseView {
        ResponseView {
            status: self.status@,
            data: match self.data {
                Some(list) => Some(field_views(list@)),
                None => None,
            },
        }
    }
}

/// The answer that a JSON text writes.
pub open spec fn response_of(json: Seq<char>) -> Option<ResponseView> {
    match record(json, seq!["status"@, "data"@], 1, false) {
        None => None,
        Some(f) => match both(string_field(f[0]), data_field(f[1])) {
            None => None,
            Some((status, data)) => Some(ResponseView { status, data }),
        },
    }
}

/// The devices, each once, in the order in which they first come.
pub open spec fn deduped(devices: Seq<Option<Seq<char>>>) -> Seq<Seq<char>>
    decreases devices.len(),
{
    if devices.len() == 0 {
        Seq::empty()
    } else {
        let before = deduped(devices.drop_last());
        match devices.last() {
            Some(device) => if before.contains(device) {
                before
            } else {
                before.push(device)
            },
            None => before,
        }
    }
}

/// The devices that an answer selects, or why it selects none.
pub open spec fn selected(resp: ResponseView) -> core::result::Result<Seq<Seq<char>>, Seq<char>> {
    if resp.status != "success"@ {
        Err("prometheus query returned status="@ + debug_text(resp.status))
    } else {
        match resp.data {
            None => Err("prometheus response missing \"data\""@),
            Some(devices) => Ok(deduped(devices)),
        }
    }
}

/// Whether `r` are the devices that the answer `json` selects, or why it selects
/// none. Where `json` writes no answer, `complaint` has the words for it.
pub open spec fn queried<C: Fn(&str) -> String>(
    json: &str,
    complaint: C,
    r: core::result::Result<Vec<String>, String>,
) -> bool {
    match response_of(json@) {
        None => exists|why: String| #[trigger]
            call_ensures(complaint, (json,), why) && (r matches Err(e) && e@
                == "invalid prometheus response json: "@ + why@),
        Some(resp) => match r {
            Ok(list) => selected(resp) == Ok::<Seq<Seq<char>>, Seq<char>>(text_views(list@)),
            Err(e) => selected(resp) == Err::<Seq<Seq<char>>, Seq<char>>(e@),
        },
    }
}

fn check_labels(labels: &[(String, String)]) -> (r: bool)
    ensures
        r == all_strings(member_views(labels@)),
{
    let ghost all = member_views(labels@);
    let mut i: usize = 0;
    while i < labels.len()
        invariant
            i <= labels.len(),
            all == member_views(labels@),
            forall|k: int| 0 <= k < i ==> json_string((#[trigger] all[k]).1) is Some,
        decreases labels.len() - i,
    {
        assert(all[i as int].1 == labels@[i as int].1@);
        if read_string(labels[i].1.as_str()).is_none() {
            return false;
        }
        i = i + 1;
    }
    true
}

fn read_item(item: &str) -> (r: Option<Option<String>>)
    ensures
        match r {
            Some(device) => item_device(item@) == Some(
                opt_view(device),
            ),
            None => item_device(item@) is None,
        },
{
    let names: Vec<&str> = vec!["metric"];
    assert(name_views(names@) =~= seq!["metric"@]);
    let f = read_record(item, names.as_slice(), 0, false)?;
    assert(field_views(f@).len() == 1);
    let text = match &f[0] {
        Some(text) => text.as_str(),
        None => return Some(None),
    };
    let labels = read_object(text)?;
    if !check_labels(labels.as_slice()) {
        return None;
    }
    let device = find_last_member(labels.as_slice(), "device");
    take_opt_string(&device)
}

proof fn lemma_items_fail(items: Seq<Seq<char>>, n: int)
    requires
        0 <= n <= items.len(),
        item_devices(items.take(n)) is None,
    ensures
        item_devices(items) is None,
    decreases items.len() - n,
{
    if n < items.len() {
        assert(items.take(n + 1).drop_last() =~= items.take(n));
        lemma_items_fail(items, n + 1);
    } else {
        assert(items.take(n) =~= items);
    }
}

fn read_result(data: &str) -> (r: Option<Vec<Option<String>>>)
    ensures
        match r {
            Some(list) => data_devices(data@) == Some(field_views(list@)),
            None => data_devices(data@) is None,
        },
{
    let names: Vec<&str> = vec!["result"];
    assert(name_views(names@) =~= seq!["result"@]);
    let f = read_record(data, names.as_slice(), 0, false)?;
    assert(field_views(f@).len() == 1);
    let mut out: Vec<Option<String>> = Vec::new();
    assert(field_views(out@) =~= Seq::<Option<Seq<char>>>::empty());
    let text = match &f[0] {
        Some(text) => text.as_str(),
        None => return Some(out),
    };
    let items = read_array(text)?;
    let ghost all = text_views(items@);
    let mut i: usize = 0;
    assert(all.take(0) =~= Seq::<Seq<char>>::empty());
    while i < items.len()
        invariant
            i <= items.len(),
            all == text_views(items@),
            data_devices(data@) == item_devices(all),
            item_devices(all.take(i as int)) == Some(field_views(out@)),
        decreases items.len() - i,
    {
        assert(all.take(i + 1).drop_last() =~= all.take(i as int));
        assert(all.take(i + 1).last() == items@[i as int]@);
        let device = match read_item(items[i].as_str()) {
            Some(device) => device,
            None => {
                proof {
                    lemma_items_fail(all, i + 1);
                }
                return None;
            },
        };
        let ghost before = field_views(out@);
        let ghost shown = opt_view(device);
        out.push(device);
        assert(field_views(out@) =~= before.push(shown));
        i = i + 1;
    }
    assert(all.take(all.len() as int) =~= all);
    Some(out)
}

fn read_response(json: &str) -> (r: Option<QueryResponse>)
    ensures
        match r {
            Some(resp) => response_of(json@) == Some(resp@),
            None => response_of(json@) is None,
        },
{
    let names: Vec<&str> = vec!["status", "data"];
    assert(name_views(names@) =~= seq!["status"@, "data"@]);
    let f = read_record(json, names.as_slice(), 1, false)?;
    assert(field_views(f@).len() == 2);
    let status = take_string(&f[0])?;
    let data = match &f[1] {
        None => None,
        Some(text) => if same_text(text.as_str(), "null") {
            None
        } else {
            Some(read_result(text.as_str())?)
        },
    };
    Some(QueryResponse { status, data })
}

/// The devices that an answer selects: each device once, in the order in which
/// the series come. Series that are about no device are passed over.
pub fn select_devices(resp: &QueryResponse) -> (r: core::result::Result<Vec<String>, String>)
    ensures
        match r {
            Ok(list) => selected(resp@) == Ok::<Seq<Seq<char>>, Seq<char>>(text_views(list@)),
            Err(e) => selected(resp@) == Err::<Seq<Seq<char>>, Seq<char>>(e@),
        },
{
    if !same_text(resp.status.as_str(), "success") {
        let shown = quoted(resp.status.as_str());
        return Err("prometheus query returned status=".to_owned().concat(shown.as_str()));
    }
    let data = match &resp.data {
        Some(data) => data,
        None => return Err("prometheus response missing \"data\"".to_owned()),
    };
    let ghost all = field_views(data@);
    let mut out: Vec<String> = Vec::new();
    let mut i: usize = 0;
    assert(all.take(0) =~= Seq::<Option<Seq<char>>>::empty());
    assert(text_views(out@) =~= Seq::<Seq<char>>::empty());
    while i < data.len()
        invariant
            i <= data.len(),
            all == field_views(data@),
            text_views(out@) == deduped(all.take(i as int)),
        decreases data.len() - i,
    {
        assert(all.take(i + 1).drop_last() =~= all.take(i as int));
        assert(all.take(i + 1).last() == opt_view(data@[i as int]));
        if let Some(device) = &data[i] {
            if !holds_text(out.as_slice(), device.as_str()) {
                let ghost before = text_views(out@);
                let next = device.as_str().to_owned();
                out.push(next);
                assert(text_views(out@) =~= before.push(device@));
            }
        }
        i = i + 1;
    }
    assert(all.take(all.len() as int) =~= all);
    Ok(out)
}

/// The devices that an answer of Prometheus selects. `complaint` has the words for
/// what is wrong with a text that writes no answer.
pub fn parse_query_devices<C: Fn(&str) -> String>(json: &str, complaint: &C) -> (r:
    core::result::Result<Vec<String>, String>)
    requires
        call_requires(*complaint, (json,)),
    ensures
        queried(json, *complaint, r),
{
    match read_response(json) {
        Some(resp) => select_devices(&resp),
        None => {
            let why = complaint(json);
            Err("invalid prometheus response json: ".to_owned().concat(why.as_str()))
        },
    }
}

/// Whether `r` are the devices that a reply with the status `code` selects, or why
/// it selects none.
pub open spec fn reply_queried<C: Fn(&str) -> String>(
    code: u16,
    status: &str,
    body: &str,
    complaint: C,
    r: core::result::Result<Vec<String>, String>,
) -> bool {
    if 200 <= code < 300 {
        queried(body, complaint, r)
    } else {
        r matches Err(e) && e@ == "prometheus http status "@ + status@ + ": "@ + body@
    }
}

/// The devices that a reply with the status `code` selects. A reply that is no
/// success is an error with its status, as `status` writes it, and its body.
pub fn query_reply<C: Fn(&str) -> String>(
    code: u16,
    status: &str,
    body: &str,
    complaint: &C,
) -> (r: core::result::Result<Vec<String>, String>)
    requires
        call_requires(*complaint, (body,)),
    ensures
        200 <= code < 300 ==> queried(body, *complaint, r),
        !(200 <= code < 300) ==> (r matches Err(e) && e@ == "prometheus http status "@ + status@
            + ": "@ + body@),
        reply_queried(code, status, body, *complaint, r),
{
    if code < 200 || code >= 300 {
        return Err(
            "prometheus http status ".to_owned().concat(status).concat(": ").concat(body),
        );
    }
    parse_query_devices(body, complaint)
}

/// No device is selected twice, and those selected are the ones that the series
/// are about.
pub proof fn law_devices_once(devices: Seq<Option<Seq<char>>>)
    ensures
        deduped(devices).no_duplicates(),
        forall|device: Seq<char>|
            #[trigger] deduped(devices).contains(device) <==> devices.contains(Some(device)),
    decreases devices.len(),
{
    if devices.len() > 0 {
        let before = deduped(devices.drop_last());
        let after = deduped(devices);
        law_devices_once(devices.drop_last());
        assert forall|device: Seq<char>|
            #[trigger] after.contains(device) <==> devices.contains(Some(device)) by {
            if after.contains(device) {
                if before.contains(device) {
                    assert(devices.drop_last().contains(Some(device)));
                    let i = choose|i: int|
                        0 <= i < devices.drop_last().len() && devices.drop_last()[i] == Some(device);
                    assert(devices[i] == Some(device));
                } else {
                    assert(devices.last() == Some(device)) by {
                        let i = choose|i: int| 0 <= i < after.len() && after[i] == device;
                        if i < before.len() {
                            assert(before.contains(before[i]));
                        }
                    }
                    assert(devices[devices.len() - 1] == Some(device));
                }
            }
            if devices.contains(Some(device)) {
                let i = choose|i: int| 0 <= i < devices.len() && devices[i] == Some(device);
                if i < devices.len() - 1 {
                    assert(devices.drop_last()[i] == Some(device));
                    assert(before.contains(device));
                }
                if before.contains(device) {
                    let j = choose|j: int| 0 <= j < before.len() && before[j] == device;
                    assert(after[j] == device);
                } else {
                    assert(after.last() == device);
                }
            }
        }
    }
}

} // verus!
