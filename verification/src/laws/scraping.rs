//! How a device is read step by step, what a scrape makes of it, and the tables that
//! are kept across scrapes and polls.

use crate::client::Client;
use crate::config::{config_of, creds_read, Answer, Config, Device, PasswordSource};
use crate::decode::{
    node_of, nodes_of, out_of_range, present_nodes, word, DeviceStatusView, MocaNodeView,
};
use crate::error::{Error, ErrorView, Result};
use crate::exporter::scrape::{
    client_for, counts_for, device_stepped, outcomes_of, reason_of, result_of, results_of, scraped,
    starts, timed_out, AppState, DeviceNextView, DeviceReadView, DeviceResult, ReadingView,
    ResultView,
};
use crate::exporter::scrapes::{
    all_came, law_success_or_failure, lemma_slot, names_differ, slots_filled, status_came,
};
use crate::laws::metrics::{law_page_tells_what_was_scraped, listing, plain_times};
use crate::laws::network::{lemma_net_complaint, lemma_paths, rates_of};
use crate::laws::page::{one_line, read_page};
use crate::ms;
use crate::phy::{Layout, PhyRatesView};
use crate::reads::{
    layout_of, links_read, nodes_next, phy_next, status_next, status_stepped, NetView, NextView,
    PhyView,
};
use crate::remediator::config::{loaded, remediator_of, LoadError, RemediatorConfig, Rule};
use crate::remediator::poller::Books;
use crate::tables::{
    counted, distinct, has_key, has_room, lemma_place, lookup, place, put, row_at, seeded, CountKey,
    Counts,
};
use crate::text::decimal;
use vstd::prelude::*;

verus! {

/// What is told of an error in the metrics: one word for each kind.
pub proof fn law_reasons(text: Seq<char>, cmd: Seq<char>, code: u16)
    ensures
        reason_of(ErrorView::Timeout) == "timeout"@,
        reason_of(ErrorView::Auth) == "auth"@,
        reason_of(ErrorView::Csrf) == "csrf"@,
        reason_of(ErrorView::HttpStatus(code)) == "http_status"@,
        reason_of(ErrorView::Decode { cmd, reason: text }) == "decode"@,
        reason_of(ErrorView::Http(text)) == "unreachable"@,
        reason_of(ErrorView::Config(text)) == "config"@,
{
}

/// A result is the reading under the device's name and host: up exactly where a status
/// was read, with the reason of the error where there is one. A device that did not
/// finish is down for the reason `timeout`, and nothing of it was read.
pub proof fn law_result_by_reading(
    name: Seq<char>,
    host: Seq<char>,
    reading: ReadingView,
    duration: Seq<char>,
)
    ensures
        ({
            let r = result_of(name, host, reading, duration);
            &&& r.name == name && r.host == host && r.duration_secs == duration
            &&& r.up <==> reading.status is Some
            &&& r.status == reading.status && r.phy == reading.phy
            &&& reading.error is None ==> r.error_reason is None
            &&& reading.error matches Some(e) ==> r.error_reason == Some(reason_of(e))
        }),
        ({
            let r = timed_out(name, host, duration);
            &&& r.name == name && r.host == host && r.duration_secs == duration
            &&& !r.up && r.status is None && r.phy is None
            &&& r.error_reason == Some("timeout"@)
        }),
{
}

/// What is shown of each result is the result, with the counts and the time of the last
/// success that are kept under its name.
pub proof fn law_outcome_by_result(
    results: Seq<ResultView>,
    errors: Counts,
    last_ok: Seq<(Seq<char>, Seq<char>)>,
    i: int,
)
    requires
        0 <= i < results.len(),
    ensures
        outcomes_of(results, errors, last_ok).len() == results.len(),
        ({
            let o = outcomes_of(results, errors, last_ok)[i];
            let r = results[i];
            &&& o.name == r.name && o.host == r.host && o.up == r.up
            &&& o.error_reason == r.error_reason && o.duration_secs == r.duration_secs
            &&& o.status == r.status && o.phy == r.phy
            &&& o.last_success_ts == lookup(last_ok, r.name)
            &&& forall|reason: Seq<char>, n: u64| #[trigger]
                o.error_counts.contains((reason, n)) <==> errors.contains(((r.name, reason), n))
        }),
{
    law_counts_of_device(errors, results[i].name);
}

/// The counts of a device are the rows under its name, in order.
pub proof fn law_counts_of_device(errors: Counts, name: Seq<char>)
    ensures
        forall|reason: Seq<char>, n: u64| #[trigger]
            counts_for(errors, name).contains((reason, n)) <==> errors.contains(
                ((name, reason), n),
            ),
    decreases errors.len(),
{
    let all = counts_for(errors, name);
    if errors.len() > 0 {
        let rest = errors.drop_last();
        let before = counts_for(rest, name);
        let row = errors.last();
        law_counts_of_device(rest, name);
        assert(errors =~= rest.push(row));
        assert forall|reason: Seq<char>, n: u64| #[trigger]
            all.contains((reason, n)) <==> errors.contains(((name, reason), n)) by {
            let want = ((name, reason), n);
            assert(errors.contains(want) <==> rest.contains(want) || row == want) by {
                if rest.contains(want) {
                    let i = choose|i: int| 0 <= i < rest.len() && rest[i] == want;
                    assert(errors[i] == want);
                }
                if row == want {
                    assert(errors[errors.len() - 1] == want);
                }
                if errors.contains(want) {
                    let i = choose|i: int| 0 <= i < errors.len() && errors[i] == want;
                    if i < rest.len() {
                        assert(rest[i] == want);
                    }
                }
            }
            assert(before.contains((reason, n)) <==> rest.contains(want));
            if row.0.0 == name {
                let own = (row.0.1, row.1);
                assert(all == before.push(own));
                if before.contains((reason, n)) {
                    let i = choose|i: int| 0 <= i < before.len() && before[i] == (reason, n);
                    assert(all[i] == (reason, n));
                }
                if own == (reason, n) {
                    assert(all[all.len() - 1] == (reason, n));
                }
                if all.contains((reason, n)) {
                    let i = choose|i: int| 0 <= i < all.len() && all[i] == (reason, n);
                    if i < before.len() {
                        assert(before[i] == (reason, n));
                    }
                }
            }
        }
    }
}

/// The counts of tables one behind the other stand one behind the other.
pub proof fn law_counts_in_order(a: Counts, b: Counts, name: Seq<char>)
    ensures
        counts_for(a + b, name) == counts_for(a, name) + counts_for(b, name),
    decreases b.len(),
{
    if b.len() == 0 {
        assert(a + b =~= a);
        assert(counts_for(a, name) + counts_for(b, name) =~= counts_for(a, name));
    } else {
        assert((a + b).drop_last() =~= a + b.drop_last());
        law_counts_in_order(a, b.drop_last(), name);
        assert(counts_for(a + b, name) =~= counts_for(a, name) + counts_for(b, name));
    }
}

/// A word that is not there is told with its place, and with how many there are.
pub proof fn law_word(words: Seq<u32>, idx: nat, cmd: Seq<char>)
    ensures
        idx < words.len() ==> word(words, idx, cmd) == Ok::<u32, ErrorView>(words[idx as int]),
        idx >= words.len() ==> word(words, idx, cmd) == Err::<u32, ErrorView>(
            ErrorView::Decode {
                cmd,
                reason: "index "@ + decimal(idx) + " out of range (len "@ + decimal(words.len())
                    + ")"@,
            },
        ),
{
}

/// The nodes are told one for each answer, in order.
pub proof fn law_nodes_one_by_one(ids: Seq<u32>, nets: Seq<Seq<u32>>)
    requires
        nets.len() <= ids.len(),
    ensures
        nodes_of(ids, nets) matches Ok(nodes) ==> nodes.len() == nets.len() && forall|i: int|
            0 <= i < nets.len() ==> node_of(ids[i], #[trigger] nets[i]) == Ok::<
                MocaNodeView,
                ErrorView,
            >(nodes[i]),
    decreases nets.len(),
{
    if nets.len() > 0 {
        let rest = nets.drop_last();
        let n = nets.len() - 1;
        law_nodes_one_by_one(ids, rest);
        assert(nets.last() == nets[n]);
        if let Ok(nodes) = nodes_of(ids, nets) {
            let before = nodes_of(ids, rest)->Ok_0;
            assert(nodes.drop_last() =~= before);
            assert forall|i: int| 0 <= i < nets.len() implies node_of(ids[i], #[trigger] nets[i])
                == Ok::<MocaNodeView, ErrorView>(nodes[i]) by {
                if i < n {
                    assert(nets[i] == rest[i]);
                    assert(nodes[i] == before[i]);
                }
            }
        }
    }
}

/// Whether the answer at `i` is the first that is too short.
pub open spec fn first_short(nets: Seq<Seq<u32>>, i: int) -> bool {
    &&& 0 <= i < nets.len()
    &&& nets[i].len() < 5
    &&& forall|j: int| 0 <= j < i ==> (#[trigger] nets[j]).len() >= 5
}

proof fn lemma_node_short(id: u32, net: Seq<u32>)
    ensures
        node_of(id, net) is Ok <==> net.len() >= 5,
        node_of(id, net) matches Err(e) ==> e == out_of_range(net.len(), 4, "0x16"@),
{
}

/// The nodes cannot be told where an answer is too short, and the first such answer is
/// what is told.
pub proof fn law_first_short_answer(ids: Seq<u32>, nets: Seq<Seq<u32>>, i: int)
    requires
        nets.len() <= ids.len(),
        first_short(nets, i),
    ensures
        nodes_of(ids, nets) == Err::<Seq<MocaNodeView>, ErrorView>(
            out_of_range(nets[i].len(), 4, "0x16"@),
        ),
    decreases nets.len(),
{
    let rest = nets.drop_last();
    let n = nets.len() - 1;
    if i < n {
        assert(rest[i] == nets[i]);
        assert forall|j: int| 0 <= j < i implies (#[trigger] rest[j]).len() >= 5 by {
            assert(rest[j] == nets[j]);
        }
        law_first_short_answer(ids, rest, i);
    } else {
        assert forall|j: int| 0 <= j < rest.len() implies (#[trigger] rest[j]).len() >= 5 by {
            assert(rest[j] == nets[j]);
        }
        lemma_long_enough(ids, rest);
        lemma_node_short(ids[n], nets[n]);
        assert(nets.last() == nets[n]);
    }
}

proof fn lemma_long_enough(ids: Seq<u32>, nets: Seq<Seq<u32>>)
    requires
        forall|j: int| 0 <= j < nets.len() ==> (#[trigger] nets[j]).len() >= 5,
    ensures
        nodes_of(ids, nets) is Ok,
    decreases nets.len(),
{
    if nets.len() > 0 {
        let rest = nets.drop_last();
        let n = nets.len() - 1;
        assert forall|j: int| 0 <= j < rest.len() implies (#[trigger] rest[j]).len() >= 5 by {
            assert(rest[j] == nets[j]);
        }
        lemma_long_enough(ids, rest);
        assert(nets[n].len() >= 5);
        lemma_node_short(ids[n], nets[n]);
    }
}

/// A network is read from its local information on, which has to reach up to the nodes
/// that it names.
pub proof fn law_network_begins(local: Seq<u32>, nets: Seq<Seq<u32>>, fmrs: Seq<Seq<u32>>)
    ensures
        (nodes_next(NetView { local: None, nets }) matches NextView::Read { cmd, body }
            && cmd.spec_path() == "/ms/0/0x15"@ && body == "{\"data\":[]}"@),
        (phy_next(PhyView { local: None, nets, fmrs }) matches NextView::Read { cmd, body }
            && cmd.spec_path() == "/ms/0/0x15"@ && body == "{\"data\":[]}"@),
        local.len() <= 12 ==> {
            let e = out_of_range(local.len(), 12, "0x15"@);
            &&& nodes_next(NetView { local: Some(local), nets }) == NextView::<
                Seq<MocaNodeView>,
            >::Done(Err(e))
            &&& phy_next(PhyView { local: Some(local), nets, fmrs }) == NextView::<
                PhyRatesView,
            >::Done(Err(e))
        },
{
    lemma_paths();
}

/// The answers are taken in turn: the local information, one for each node, and then
/// again one for each node.
pub proof fn law_answers_in_turn(
    local: Option<Seq<u32>>,
    nets: Seq<Seq<u32>>,
    fmrs: Seq<Seq<u32>>,
    words: Seq<u32>,
)
    ensures
        ({
            let after = PhyView { local, nets, fmrs }.with(words);
            match local {
                None => after == (PhyView { local: Some(words), nets, fmrs }),
                Some(l) => if nets.len() < present_nodes(l[12], 16).len() {
                    after == (PhyView { local, nets: nets.push(words), fmrs })
                } else {
                    after == (PhyView { local, nets, fmrs: fmrs.push(words) })
                },
            }
        }),
        ({
            let after = NetView { local, nets }.with(words);
            match local {
                None => after == (NetView { local: Some(words), nets }),
                Some(l) => after == (NetView { local, nets: nets.push(words) }),
            }
        }),
{
}

proof fn lemma_links_complaint(layout: Layout, ids: Seq<u32>, fmrs: Seq<Seq<u32>>)
    requires
        fmrs.len() <= ids.len(),
    ensures
        links_read(layout, ids, fmrs) is Ok <==> forall|k: int|
            0 <= k < fmrs.len() ==> layout.links(ids[k], 16, #[trigger] fmrs[k]) is Ok,
    decreases fmrs.len(),
{
    if fmrs.len() > 0 {
        let rest = fmrs.drop_last();
        let n = fmrs.len() - 1;
        lemma_links_complaint(layout, ids, rest);
        assert(fmrs.last() == fmrs[n]);
        if links_read(layout, ids, fmrs) is Ok {
            assert forall|k: int| 0 <= k < fmrs.len() implies layout.links(
                ids[k],
                16,
                #[trigger] fmrs[k],
            ) is Ok by {
                if k < n {
                    assert(rest[k] == fmrs[k]);
                }
            }
        } else if forall|k: int|
            0 <= k < fmrs.len() ==> layout.links(ids[k], 16, #[trigger] fmrs[k]) is Ok {
            assert forall|k: int| 0 <= k < rest.len() implies layout.links(
                ids[k],
                16,
                #[trigger] rest[k],
            ) is Ok by {
                assert(rest[k] == fmrs[k]);
            }
            assert(layout.links(ids[n], 16, fmrs[n]) is Ok);
        }
    }
}

/// Reading the rates ends well exactly where every node was answered for, both times,
/// and every answer could be read; it ends early at an answer that could not.
pub proof fn law_rates_end(local: Seq<u32>, nets: Seq<Seq<u32>>, fmrs: Seq<Seq<u32>>)
    requires
        local.len() > 12,
        nets.len() <= present_nodes(local[12], 16).len(),
        fmrs.len() <= present_nodes(local[12], 16).len(),
    ensures
        ({
            let ids = present_nodes(local[12], 16);
            let nets_read = forall|k: int|
                0 <= k < nets.len() ==> (#[trigger] nets[k]).len() >= 5;
            let rates_read = forall|k: int|
                0 <= k < fmrs.len() ==> layout_of(local, nets).links(
                    ids[k],
                    16,
                    #[trigger] fmrs[k],
                ) is Ok;
            let all_nets = nets.len() == ids.len();
            let all_rates = fmrs.len() == ids.len();
            match rates_of(local, nets, fmrs) {
                NextView::Done(Ok(_)) => nets_read && rates_read && all_nets && all_rates,
                NextView::Done(Err(_)) => !nets_read || all_nets && !rates_read,
                NextView::Read { .. } => nets_read && (!all_nets || rates_read && !all_rates),
            }
        }),
{
    lemma_net_complaint(nets);
    lemma_links_complaint(layout_of(local, nets), present_nodes(local[12], 16), fmrs);
}

/// While the status of a device is read, its registers are asked for as for the status
/// alone; where that fails, nothing was read; once it is there, the rates are read from
/// the local information on.
pub proof fn law_device_status_first(
    known: DeviceReadView,
    reply: core::result::Result<Seq<u32>, ErrorView>,
)
    requires
        known.status is None,
    ensures
        ({
            let (answers, next) = status_stepped(known.answers, reply);
            let (after, step) = device_stepped(known, reply);
            &&& after.answers == answers
            &&& after.phy == known.phy
            &&& match next {
                NextView::Read { cmd, body } => after.status is None && step == (
                DeviceNextView::Read { cmd, body }),
                NextView::Done(Err(e)) => step == DeviceNextView::Done(
                    ReadingView { status: None, phy: None, error: Some(e) },
                ),
                NextView::Done(Ok(status)) => after.status == Some(status) && (step matches
                    DeviceNextView::Read { cmd, body } && cmd.spec_path() == "/ms/0/0x15"@ && body
                    == "{\"data\":[]}"@),
            }
        }),
{
    lemma_paths();
}

/// Once the status of a device is there it stays, whatever becomes of the rates: a reply
/// that fails ends the read with its error, and so does an answer that cannot be read.
pub proof fn law_device_rates_next(
    known: DeviceReadView,
    reply: core::result::Result<Seq<u32>, ErrorView>,
)
    requires
        known.status is Some,
    ensures
        ({
            let (after, step) = device_stepped(known, reply);
            &&& after.answers == known.answers
            &&& after.status == known.status
            &&& match reply {
                Err(e) => after.phy == known.phy && step == DeviceNextView::Done(
                    ReadingView { status: known.status, phy: None, error: Some(e) },
                ),
                Ok(words) => after.phy == known.phy.with(words) && match phy_next(
                    known.phy.with(words),
                ) {
                    NextView::Read { cmd, body } => step == (DeviceNextView::Read { cmd, body }),
                    NextView::Done(Err(e)) => step == DeviceNextView::Done(
                        ReadingView { status: known.status, phy: None, error: Some(e) },
                    ),
                    NextView::Done(Ok(rates)) => step == DeviceNextView::Done(
                        ReadingView { status: known.status, phy: Some(rates), error: None },
                    ),
                },
            }
        }),
{
}

/// A reply of a register is added to the answers; a failure ends the read, but for that
/// of the last register, which counts as an answer without words.
pub proof fn law_status_replies(
    answers: Seq<Seq<u32>>,
    reply: core::result::Result<Seq<u32>, ErrorView>,
)
    ensures
        match reply {
            Ok(words) => status_stepped(answers, reply) == (
                answers.push(words),
                status_next(answers.push(words)),
            ),
            Err(e) => if answers.len() == 5 {
                status_stepped(answers, reply) == (
                    answers.push(Seq::empty()),
                    status_next(answers.push(Seq::empty())),
                )
            } else if answers.len() < 5 {
                status_stepped(answers, reply) == (
                    answers,
                    NextView::<DeviceStatusView>::Done(Err(e)),
                )
            } else {
                true
            },
        },
{
}

/// A table holds for a key what its row says, and nothing where there is no row; a
/// value put in takes the place of the one before, or comes last; the others stay where
/// they are.
pub proof fn law_table<K, V>(rows: Seq<(K, V)>, key: K, value: V)
    requires
        distinct(rows),
    ensures
        forall|i: int|
            0 <= i < rows.len() && (#[trigger] rows[i]).0 == key ==> lookup(rows, key) == Some(
                rows[i].1,
            ),
        (forall|i: int| 0 <= i < rows.len() ==> (#[trigger] rows[i]).0 != key) <==> lookup(
            rows,
            key,
        ) is None,
        ({
            let after = put(rows, key, value);
            &&& after.len() == rows.len() + if lookup(rows, key) is None {
                1int
            } else {
                0
            }
            &&& lookup(rows, key) is None ==> after.last() == (key, value)
            &&& forall|i: int|
                0 <= i < rows.len() ==> #[trigger] after[i] == if rows[i].0 == key {
                    (key, value)
                } else {
                    rows[i]
                }
        }),
{
    assert forall|i: int| 0 <= i < rows.len() && (#[trigger] rows[i]).0 == key implies lookup(
        rows,
        key,
    ) == Some(rows[i].1) by {
        assert(row_at(rows, key, i));
        lemma_place(rows, key, i);
    }
    let after = put(rows, key, value);
    if has_key(rows, key) {
        let p = place(rows, key);
        assert(row_at(rows, key, p));
        assert(rows[p].0 == key);
        assert forall|i: int| 0 <= i < rows.len() implies #[trigger] after[i] == if rows[i].0
            == key {
            (key, value)
        } else {
            rows[i]
        } by {
            if rows[i].0 == key {
                assert(row_at(rows, key, i));
                lemma_place(rows, key, i);
            }
        }
    } else {
        assert forall|i: int| 0 <= i < rows.len() implies (#[trigger] rows[i]).0 != key by {
            if rows[i].0 == key {
                assert(row_at(rows, key, i));
            }
        }
    }
}

/// How often a key was counted stands in its row; a key without a row was never
/// counted.
pub proof fn law_counted(rows: Counts, key: CountKey)
    requires
        distinct(rows),
    ensures
        forall|i: int|
            0 <= i < rows.len() && (#[trigger] rows[i]).0 == key ==> counted(rows, key)
                == rows[i].1,
        (forall|i: int| 0 <= i < rows.len() ==> (#[trigger] rows[i]).0 != key) ==> counted(
            rows,
            key,
        ) == 0,
{
    law_table(rows, key, 0);
}

/// Whether a device and a rule of the configuration have these names.
pub open spec fn pair_configured(
    devices: Seq<Device>,
    rules: Seq<Rule>,
    name: Seq<char>,
    reason: Seq<char>,
) -> bool {
    (exists|i: int| 0 <= i < devices.len() && (#[trigger] devices[i]).name@ == name) && (exists|
        j: int,
    |
        0 <= j < rules.len() && (#[trigger] rules[j]).name@ == reason)
}

proof fn lemma_seeded_key(rows: Counts, key: CountKey, k: CountKey)
    ensures
        has_key(seeded(rows, key), k) <==> has_key(rows, k) || k == key,
{
    let after = seeded(rows, key);
    if has_key(rows, k) {
        let i = choose|i: int| row_at(rows, k, i);
        assert(row_at(after, k, i));
    }
    if k == key && !has_key(rows, key) {
        assert(row_at(after, k, rows.len() as int));
    }
    if has_key(after, k) {
        let i = choose|i: int| row_at(after, k, i);
        if i < rows.len() {
            assert(row_at(rows, k, i));
        }
    }
}

proof fn lemma_rules_rows(books: Books, name: Seq<char>, rules: Seq<Rule>, k: CountKey)
    ensures
        ({
            let after = books.with_rules(name, rules);
            let own = k.0 == name && exists|j: int|
                0 <= j < rules.len() && (#[trigger] rules[j]).name@ == k.1;
            &&& has_key(after.reboots_total, k) <==> has_key(books.reboots_total, k) || own
            &&& has_key(after.would_reboot_total, k) <==> has_key(books.would_reboot_total, k)
                || own
            &&& has_key(after.reboot_failures_total, k) <==> has_key(
                books.reboot_failures_total,
                k,
            ) || own
        }),
    decreases rules.len(),
{
    if rules.len() > 0 {
        let rest = rules.drop_last();
        let n = rules.len() - 1;
        let mid = books.with_rules(name, rest);
        let key = (name, rules.last().name@);
        lemma_rules_rows(books, name, rest, k);
        lemma_seeded_key(mid.reboots_total, key, k);
        lemma_seeded_key(mid.would_reboot_total, key, k);
        lemma_seeded_key(mid.reboot_failures_total, key, k);
        if exists|j: int| 0 <= j < rest.len() && (#[trigger] rest[j]).name@ == k.1 {
            let j = choose|j: int| 0 <= j < rest.len() && (#[trigger] rest[j]).name@ == k.1;
            assert(rules[j] == rest[j]);
        }
        assert(rules[n] == rules.last());
        if exists|j: int| 0 <= j < rules.len() && (#[trigger] rules[j]).name@ == k.1 {
            let j = choose|j: int| 0 <= j < rules.len() && (#[trigger] rules[j]).name@ == k.1;
            if j < n {
                assert(rest[j] == rules[j]);
            }
        }
    }
}

/// The counters that the remediator begins with are exactly those of the configured
/// devices and rules.
pub proof fn law_counters_of_the_configured(
    devices: Seq<Device>,
    rules: Seq<Rule>,
    name: Seq<char>,
    reason: Seq<char>,
)
    ensures
        ({
            let books = Books::empty().with_devices(devices, rules);
            let here = pair_configured(devices, rules, name, reason);
            &&& has_key(books.reboots_total, (name, reason)) <==> here
            &&& has_key(books.would_reboot_total, (name, reason)) <==> here
            &&& has_key(books.reboot_failures_total, (name, reason)) <==> here
        }),
    decreases devices.len(),
{
    let key = (name, reason);
    if devices.len() > 0 {
        let rest = devices.drop_last();
        let n = devices.len() - 1;
        law_counters_of_the_configured(rest, rules, name, reason);
        lemma_rules_rows(Books::empty().with_devices(rest, rules), devices.last().name@, rules, key);
        assert(devices[n] == devices.last());
        if exists|i: int| 0 <= i < rest.len() && (#[trigger] rest[i]).name@ == name {
            let i = choose|i: int| 0 <= i < rest.len() && (#[trigger] rest[i]).name@ == name;
            assert(devices[i] == rest[i]);
        }
        if exists|i: int| 0 <= i < devices.len() && (#[trigger] devices[i]).name@ == name {
            let i = choose|i: int| 0 <= i < devices.len() && (#[trigger] devices[i]).name@ == name;
            if i < n {
                assert(rest[i] == devices[i]);
            }
        }
    }
}

/// The results of a scrape are one for each device, in order: what came of it, or that
/// it did not finish, under its own name and host and after the time of the scrape.
pub proof fn law_results_by_slot(
    clients: Seq<(String, String, Client)>,
    slots: Seq<Option<DeviceResult>>,
    elapsed: Seq<char>,
    i: int,
)
    requires
        slots.len() == clients.len(),
        0 <= i < clients.len(),
    ensures
        ({
            let all = results_of(clients, slots, elapsed);
            &&& all.len() == clients.len()
            &&& slots[i] matches Some(result) ==> all[i] == result@
            &&& slots[i] is None ==> {
                &&& all[i].name == clients[i].0@
                &&& all[i].host == clients[i].1@
                &&& all[i].duration_secs == elapsed
                &&& !all[i].up && all[i].status is None && all[i].phy is None
                &&& all[i].error_reason == Some("timeout"@)
            }
        }),
{
}

/// An exporter has a client for each configured device, in order: under the device's
/// name, for its host, with the times of the configuration, no token, and credentials
/// of the device. Nothing is counted yet.
pub proof fn law_exporter_starts<F: Fn(&PasswordSource) -> Answer, C: Fn(&str) -> String>(
    text: &str,
    read: F,
    complaint: C,
    state: AppState,
    i: int,
)
    requires
        starts(text, read, complaint, Ok(state)),
        0 <= i < state.cfg.device@.len(),
    ensures
        config_of(text@) == Some(state.cfg@),
        state.clients@.len() == state.cfg.device@.len(),
        ({
            let dev = state.cfg.device@[i];
            let (name, host, client) = state.clients@[i];
            &&& name@ == dev.name@
            &&& host@ == dev.host@
            &&& client.base_url@ == "http://"@ + dev.host@
            &&& client.opts.request_timeout_secs == state.cfg.request_timeout_secs
            &&& client.opts.connect_timeout_secs == state.cfg.connect_timeout_secs
            &&& !client.opts.verbose
            &&& client.csrf is None
            &&& creds_read(state.cfg, dev, read, Ok(client.creds))
        }),
        state.errors@.len() == 0,
        state.last_ok@.len() == 0,
{
    assert(client_for(state.cfg, state.cfg.device@[i], read, state.clients@[i]));
}

/// No exporter starts from a text that is no configuration; the error is then one of
/// configuration, in the words that there are for it.
pub proof fn law_exporter_needs_config<F: Fn(&PasswordSource) -> Answer, C: Fn(&str) -> String>(
    text: &str,
    read: F,
    complaint: C,
    r: Result<AppState>,
)
    requires
        starts(text, read, complaint, r),
        config_of(text@) is None,
    ensures
        r matches Err(Error::Config(why)) && call_ensures(complaint, (text,), why),
{
}

/// Both parts of a configuration are loaded or none: a text that is no configuration of
/// the devices fails as such, and one that is none of the remediator only then as that.
pub proof fn law_both_parts_loaded<C: Fn(&str) -> String, D: Fn(&str) -> String>(
    text: &str,
    complaint: C,
    remediator_complaint: D,
    r: core::result::Result<(Config, RemediatorConfig), LoadError>,
)
    requires
        loaded(text, complaint, remediator_complaint, r),
    ensures
        r is Ok <==> config_of(text@) is Some && remediator_of(text@) is Some,
        r matches Ok(parts) ==> config_of(text@) == Some(parts.0@) && remediator_of(text@) == Some(
            parts.1@,
        ),
        config_of(text@) is None ==> (r matches Err(LoadError::Config(Error::Config(why)))
            && call_ensures(complaint, (text,), why)),
        config_of(text@) is Some && remediator_of(text@) is None ==> (r matches Err(
            LoadError::Toml(why),
        ) && call_ensures(remediator_complaint, (text,), why)),
{
}

/// Before the first poll the counters of the configured devices and rules stand at
/// zero, their breakers are closed, and no device has been rebooted.
pub proof fn law_remediator_starts(
    cfg: Config,
    rcfg: RemediatorConfig,
    name: Seq<char>,
    reason: Seq<char>,
)
    ensures
        ({
            let books = Books::at_start(cfg, rcfg);
            let key = (name, reason);
            let here = pair_configured(cfg.device@, rcfg.rule@, name, reason);
            &&& books.wf()
            &&& has_key(books.reboots_total, key) <==> here
            &&& has_key(books.would_reboot_total, key) <==> here
            &&& has_key(books.reboot_failures_total, key) <==> here
            &&& here ==> lookup(books.circuit_open, name) == Some(false)
            &&& counted(books.reboots_total, key) == 0
            &&& counted(books.would_reboot_total, key) == 0
            &&& counted(books.reboot_failures_total, key) == 0
            &&& books.state_of(name).last_reboot_unix is None
            &&& books.state_of(name).reboots_today == 0
            &&& lookup(books.last_reboot_ts, name) is None
        }),
{
    let devices = cfg.device@;
    let rules = rcfg.rule@;
    let books = Books::at_start(cfg, rcfg);
    law_counters_of_the_configured(devices, rules, name, reason);
    crate::remediator::poller::law_counters_begin_at_zero(devices, rules);
    assert(counted(books.reboots_total, (name, reason)) == 0);
    if pair_configured(devices, rules, name, reason) {
        let i = choose|i: int| 0 <= i < devices.len() && (#[trigger] devices[i]).name@ == name;
        let j = choose|j: int| 0 <= j < rules.len() && (#[trigger] rules[j]).name@ == reason;
        assert(crate::remediator::poller::zeroed(books, devices[i].name@, rules[j].name@));
    }
    if has_key(books.devices, name) {
        let i = choose|i: int| row_at(books.devices, name, i);
    }
    if has_key(books.last_reboot_ts, name) {
        let i = choose|i: int| row_at(books.last_reboot_ts, name, i);
    }
}

/// Whether the times that a slot brings are one line each.
pub open spec fn plain_slot(slot: Option<DeviceResult>) -> bool {
    slot matches Some(result) ==> one_line(result.duration_secs@)
}

/// The page of a scrape tells of every device, in order, what came of this scrape, with
/// the counts and the time of the last success as they stand after it: a device whose
/// status and rates came in time was last read now, and no count of it has grown; any
/// other keeps the time it had, and its count under the reason of the failure has grown
/// by one.
pub proof fn law_whole_scrape(
    clients: Seq<(String, String, Client)>,
    slots: Seq<Option<DeviceResult>>,
    elapsed: Seq<char>,
    now: Seq<char>,
    errors: Counts,
    last_ok: Seq<(Seq<char>, Seq<char>)>,
    i: int,
    reason: Seq<char>,
)
    requires
        slots_filled(clients, slots),
        names_differ(clients),
        distinct(errors),
        distinct(last_ok),
        has_room(errors, clients.len()),
        one_line(elapsed),
        one_line(now),
        forall|k: int| 0 <= k < slots.len() ==> plain_slot(#[trigger] slots[k]),
        forall|k: int| 0 <= k < last_ok.len() ==> one_line((#[trigger] last_ok[k]).1),
        0 <= i < clients.len(),
    ensures
        ({
            let (new_errors, new_last, page) = scraped(
                clients,
                slots,
                elapsed,
                now,
                errors,
                last_ok,
            );
            let os = outcomes_of(results_of(clients, slots, elapsed), new_errors, new_last);
            let name = clients[i].0@;
            let key = (name, reason);
            &&& read_page(page) == Some(listing(os))
            &&& os.len() == clients.len()
            &&& os[i].name == name
            &&& os[i].up <==> status_came(slots[i])
            &&& os[i].last_success_ts == if all_came(slots[i]) {
                Some(now)
            } else {
                lookup(last_ok, name)
            }
            &&& counted(new_errors, key) == counted(errors, key) + if os[i].error_reason == Some(
                reason,
            ) {
                1int
            } else {
                0
            }
            &&& os[i].error_reason is None <==> all_came(slots[i])
            &&& slots[i] is None ==> os[i].error_reason == Some("timeout"@)
            &&& forall|n: u64| #[trigger]
                os[i].error_counts.contains((reason, n)) <==> new_errors.contains((key, n))
        }),
{
    let results = results_of(clients, slots, elapsed);
    let (new_errors, new_last, page) = scraped(clients, slots, elapsed, now, errors, last_ok);
    let os = outcomes_of(results, new_errors, new_last);
    law_success_or_failure(clients, slots, elapsed, now, errors, last_ok, i, reason);
    lemma_slot(clients, slots, elapsed, i);
    law_outcome_by_result(results, new_errors, new_last, i);
    assert forall|k: int| 0 <= k < os.len() implies plain_times(#[trigger] os[k]) by {
        assert(plain_slot(slots[k]));
        law_success_or_failure(clients, slots, elapsed, now, errors, last_ok, k, reason);
        let name = clients[k].0@;
        lemma_slot(clients, slots, elapsed, k);
        if has_key(last_ok, name) {
            let p = place(last_ok, name);
            assert(row_at(last_ok, name, p));
            assert(one_line(last_ok[p].1));
        }
    }
    law_page_tells_what_was_scraped(os);
}

} // verus!
