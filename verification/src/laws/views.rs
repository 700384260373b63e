//! What the types of the library stand for: each of their parts stands for itself.

use crate::client::{Exchange, Request};
use crate::config::{Config, Device, PasswordSource, ResolvedCreds, SourceView};
use crate::decode::{node_views, DeviceStatus, MocaNode};
use crate::discover::entry_views;
use crate::error::{outcome_is, Error, ErrorView, Result};
use crate::exporter::metrics::{outcome_views, DeviceOutcome};
use crate::exporter::scrape::{result_views, DeviceRead, DeviceResult, Reading};
use crate::json::name_views;
use crate::net::Ipv4Addr;
use crate::phy::PhyRates;
use crate::reads::{reply_view, PhyRead};
use crate::remediator::config::{RemediatorConfig, Rule};
use crate::remediator::poller::{Event, EventView, Inner, Poll};
use crate::remediator::state::DeviceState;
use crate::tables::{Table, Tally};
use crate::text::{text_views, views};
use vstd::prelude::*;

verus! {

/// Whether a text that may be missing stands for another.
pub open spec fn same_text_or_none(text: Option<String>, view: Option<Seq<char>>) -> bool {
    match (text, view) {
        (Some(s), Some(v)) => s@ == v,
        (None, None) => true,
        _ => false,
    }
}

/// Every part of a status stands for itself.
pub proof fn law_status_view(s: DeviceStatus)
    ensures
        s@.soc_version == s.soc_version@,
        s@.moca_version == s.moca_version@,
        s@.node_bitmask == s.node_bitmask,
        s@.node_count == s.node_count,
        s@.my_node_id == s.my_node_id,
        s@.link_up == s.link_up,
        s@.mac == s.mac@,
        s@.ip == s.ip,
        s@.beacon_channel_mhz == s.beacon_channel_mhz,
        s@.eth == s.eth,
        s@.eth_ports == s.eth_ports@,
{
}

/// Every part of a node and of the rates stands for itself.
pub proof fn law_network_views(node: MocaNode, rates: PhyRates)
    ensures
        node@.node_id == node.node_id,
        node@.mac == node.mac@,
        node@.moca_version == node.moca_version@,
        rates@.gcd_mbps == rates.gcd_mbps@,
        rates@.links == rates.links@,
        rates@.node_versions == rates.node_versions@,
{
}

/// Every part of an outcome stands for itself.
pub proof fn law_outcome_view(o: DeviceOutcome<'_>, i: int)
    ensures
        o@.name == o.name@,
        o@.host == o.host@,
        o@.up == o.up,
        o@.duration_secs == o.duration_secs@,
        o@.error_reason is Some <==> o.error_reason is Some,
        o.error_reason matches Some(reason) ==> o@.error_reason == Some(reason@),
        o@.status is Some <==> o.status is Some,
        o.status matches Some(s) ==> o@.status == Some(s@),
        o@.phy is Some <==> o.phy is Some,
        o.phy matches Some(p) ==> o@.phy == Some(p@),
        o@.last_success_ts is Some <==> o.last_success_ts is Some,
        o.last_success_ts matches Some(ts) ==> o@.last_success_ts == Some(ts@),
        o@.error_counts.len() == o.error_counts@.len(),
        0 <= i < o.error_counts@.len() ==> o@.error_counts[i] == (
            o.error_counts@[i].0@,
            o.error_counts@[i].1,
        ),
{
}

/// Every part of a result and of a reading stands for itself.
pub proof fn law_result_views(r: DeviceResult, reading: Reading)
    ensures
        r@.name == r.name@,
        r@.host == r.host@,
        r@.up == r.up,
        r@.duration_secs == r.duration_secs@,
        r@.error_reason is Some <==> r.error_reason is Some,
        r.error_reason matches Some(reason) ==> r@.error_reason == Some(reason@),
        r@.status is Some <==> r.status is Some,
        r.status matches Some(s) ==> r@.status == Some(s@),
        r@.phy is Some <==> r.phy is Some,
        r.phy matches Some(p) ==> r@.phy == Some(p@),
        reading@.status is Some <==> reading.status is Some,
        reading.status matches Some(s) ==> reading@.status == Some(s@),
        reading@.phy is Some <==> reading.phy is Some,
        reading.phy matches Some(p) ==> reading@.phy == Some(p@),
        reading@.error is Some <==> reading.error is Some,
        reading.error matches Some(e) ==> reading@.error == Some(e@),
{
}

/// The words that were read so far stand for themselves, in order.
pub proof fn law_read_views(read: DeviceRead, phy: PhyRead, i: int)
    ensures
        read@.status is Some <==> read.status is Some,
        read.status matches Some(s) ==> read@.status == Some(s@),
        read@.phy == read.phy_read@,
        read@.answers.len() == read.status_read.answers@.len(),
        0 <= i < read@.answers.len() ==> read@.answers[i] == read.status_read.answers@[i]@,
        phy@.local is Some <==> phy.local is Some,
        phy.local matches Some(words) ==> phy@.local == Some(words@),
        phy@.nets.len() == phy.nets@.len(),
        0 <= i < phy.nets@.len() ==> phy@.nets[i] == phy.nets@[i]@,
        phy@.fmrs.len() == phy.fmrs@.len(),
        0 <= i < phy.fmrs@.len() ==> phy@.fmrs[i] == phy.fmrs@[i]@,
{
}

/// Every kind of error stands for itself, with what it carries.
pub proof fn law_error_view(e: Error)
    ensures
        match e {
            Error::Http(text) => e@ == ErrorView::Http(text@),
            Error::Timeout => e@ == ErrorView::Timeout,
            Error::Auth => e@ == ErrorView::Auth,
            Error::Csrf => e@ == ErrorView::Csrf,
            Error::HttpStatus(code) => e@ == ErrorView::HttpStatus(code),
            Error::Decode { cmd, reason } => e@ == (ErrorView::Decode {
                cmd: cmd@,
                reason: reason@,
            }),
            Error::Config(text) => e@ == ErrorView::Config(text@),
        },
{
}

/// Every part of what is sent stands for itself.
pub proof fn law_request_views(request: Request, ex: Exchange, creds: ResolvedCreds, i: int)
    ensures
        request@.method == request.method,
        request@.url == request.url@,
        request@.creds == request.creds@,
        request@.body == request.body@,
        request@.headers.len() == request.headers@.len(),
        0 <= i < request.headers@.len() ==> request@.headers[i] == (
            request.headers@[i].0@,
            request.headers@[i].1@,
        ),
        creds@.username == creds.username@,
        creds@.password == creds.password@,
        ex@.path == ex.path@,
        ex@.body == ex.body@,
        ex@.retried == ex.retried,
        ex@.fetching == ex.fetching,
{
}

/// Every part of a configuration stands for itself.
pub proof fn law_config_views(cfg: Config, dev: Device, source: PasswordSource, i: int)
    ensures
        cfg@.listen == cfg.listen@,
        cfg@.request_timeout_secs == cfg.request_timeout_secs,
        cfg@.connect_timeout_secs == cfg.connect_timeout_secs,
        cfg@.scrape_deadline_secs == cfg.scrape_deadline_secs,
        same_text_or_none(cfg.username, cfg@.username),
        same_text_or_none(cfg.password, cfg@.password),
        same_text_or_none(cfg.password_env, cfg@.password_env),
        same_text_or_none(cfg.password_file, cfg@.password_file),
        cfg@.device.len() == cfg.device@.len(),
        0 <= i < cfg.device@.len() ==> cfg@.device[i] == cfg.device@[i]@,
        dev@.name == dev.name@,
        dev@.host == dev.host@,
        same_text_or_none(dev.username, dev@.username),
        same_text_or_none(dev.password, dev@.password),
        same_text_or_none(dev.password_env, dev@.password_env),
        same_text_or_none(dev.password_file, dev@.password_file),
        match source {
            PasswordSource::Inline(password) => source@ == SourceView::Inline(password@),
            PasswordSource::Env(var) => source@ == SourceView::Env(var@),
            PasswordSource::File(path) => source@ == SourceView::File(path@),
            PasswordSource::Missing => source@ == SourceView::Missing,
        },
{
}

/// Every part of the remediator's configuration stands for itself.
pub proof fn law_remediator_views(cfg: RemediatorConfig, rule: Rule, i: int)
    ensures
        cfg@.prometheus_url == cfg.prometheus_url@,
        cfg@.poll_interval_secs == cfg.poll_interval_secs,
        cfg@.cooldown_secs == cfg.cooldown_secs,
        cfg@.max_reboots_per_day == cfg.max_reboots_per_day,
        cfg@.listen == cfg.listen@,
        cfg@.dry_run == cfg.dry_run,
        cfg@.verbose == cfg.verbose,
        cfg@.rule.len() == cfg.rule@.len(),
        0 <= i < cfg.rule@.len() ==> cfg@.rule[i] == cfg.rule@[i]@,
        rule@.name == rule.name@,
        rule@.expr == rule.expr@,
{
}

/// Every part of a poll and of what is remembered stands for itself.
pub proof fn law_poll_views(poll: Poll, inner: Inner, st: DeviceState, event: Event, i: int)
    ensures
        poll@.now == poll.now.nanos,
        poll@.shown == poll.now.shown@,
        poll@.today == poll.today@,
        poll@.asked == poll.asked,
        poll@.considered == poll.considered,
        poll@.awaiting == poll.awaiting,
        poll@.matched.len() == poll.matched@.len(),
        0 <= i < poll.matched@.len() ==> poll@.matched[i] == poll.matched@[i]@,
        poll@.handled.len() == poll.handled@.len(),
        0 <= i < poll.handled@.len() ==> poll@.handled[i] == poll.handled@[i]@,
        inner@.devices == inner.devices@,
        inner@.reboots_total == inner.reboots_total@,
        inner@.would_reboot_total == inner.would_reboot_total@,
        inner@.reboot_failures_total == inner.reboot_failures_total@,
        inner@.last_reboot_ts == inner.last_reboot_ts@,
        inner@.circuit_open == inner.circuit_open@,
        st@.last_reboot_unix == st.last_reboot_unix,
        st@.day == st.day@,
        st@.reboots_today == st.reboots_today,
        match event {
            Event::Proceed => event@ == EventView::Proceed,
            Event::Matched(list) => event@ matches EventView::Matched(names) && names.len()
                == list@.len() && (0 <= i < names.len() ==> names[i] == list@[i]@),
            Event::QueryFailed => event@ == EventView::QueryFailed,
            Event::Rebooted => event@ == EventView::Rebooted,
            Event::RebootFailed => event@ == EventView::RebootFailed,
        },
{
}

/// The rows of a table and of a tally stand for themselves, in order.
pub proof fn law_table_views<V: View>(table: Table<V>, tally: Tally, i: int)
    ensures
        table@.len() == table.rows@.len(),
        0 <= i < table.rows@.len() ==> table@[i] == (table.rows@[i].0@, table.rows@[i].1@),
        tally@.len() == tally.rows@.len(),
        0 <= i < tally.rows@.len() ==> tally@[i] == (
            (tally.rows@[i].0@, tally.rows@[i].1@),
            tally.rows@[i].2,
        ),
{
}

/// Lists stand for themselves, item by item and in order.
pub proof fn law_list_views(
    pieces: Seq<Vec<char>>,
    texts: Seq<String>,
    names: Seq<&str>,
    entries: Seq<(Ipv4Addr, String)>,
    outcomes: Seq<DeviceOutcome<'_>>,
    results: Seq<DeviceResult>,
    nodes: Seq<MocaNode>,
    i: int,
)
    ensures
        views(pieces).len() == pieces.len(),
        0 <= i < pieces.len() ==> views(pieces)[i] == pieces[i]@,
        text_views(texts).len() == texts.len(),
        0 <= i < texts.len() ==> text_views(texts)[i] == texts[i]@,
        name_views(names).len() == names.len(),
        0 <= i < names.len() ==> name_views(names)[i] == names[i]@,
        entry_views(entries).len() == entries.len(),
        0 <= i < entries.len() ==> entry_views(entries)[i] == (entries[i].0, entries[i].1@),
        outcome_views(outcomes).len() == outcomes.len(),
        0 <= i < outcomes.len() ==> outcome_views(outcomes)[i] == outcomes[i]@,
        result_views(results).len() == results.len(),
        0 <= i < results.len() ==> result_views(results)[i] == results[i]@,
        node_views(nodes).len() == nodes.len(),
        0 <= i < nodes.len() ==> node_views(nodes)[i] == nodes[i]@,
{
}

/// A reply stands for its words or its error, and an outcome is what is expected only
/// where both are the same value or the same error.
pub proof fn law_reply_views(
    reply: Result<Vec<u32>>,
    expected: core::result::Result<Seq<u32>, ErrorView>,
)
    ensures
        match reply {
            Ok(words) => reply_view(reply) == Ok::<Seq<u32>, ErrorView>(words@),
            Err(e) => reply_view(reply) == Err::<Seq<u32>, ErrorView>(e@),
        },
        outcome_is(reply, expected) <==> reply_view(reply) == expected,
{
}

} // verus!
