//! The remediator's own metrics as text.

use crate::exposition::{
    block, device_line, device_row, esc, escaped, flag, flag_text, header, push_block, push_header,
};
use crate::text::{cat, decimal, decimal_text, lemma_cat_step};
use vstd::prelude::*;

verus! {

/// What the remediator has done so far.
#[derive(Debug, Clone)]
pub struct MetricsSnapshot {
    /// Device, rule and how many reboots were performed.
    pub reboots_total: Vec<(String, String, u64)>,
    /// Device, rule and how many reboots were only announced.
    pub would_reboot_total: Vec<(String, String, u64)>,
    /// Device, rule and how many reboots failed.
    pub reboot_failures_total: Vec<(String, String, u64)>,
    /// Device and when it was last rebooted, in seconds since the Unix epoch.
    pub last_reboot_ts: Vec<(String, String)>,
    /// Device and whether the circuit breaker holds it back.
    pub circuit_open: Vec<(String, bool)>,
}

impl Default for MetricsSnapshot {
    fn default() -> (r: MetricsSnapshot)
        ensures
            r.reboots_total@.len() == 0,
            r.would_reboot_total@.len() == 0,
            r.reboot_failures_total@.len() == 0,
            r.last_reboot_ts@.len() == 0,
            r.circuit_open@.len() == 0,
    {
        MetricsSnapshot {
            reboots_total: Vec::new(),
            would_reboot_total: Vec::new(),
            reboot_failures_total: Vec::new(),
            last_reboot_ts: Vec::new(),
            circuit_open: Vec::new(),
        }
    }
}

/// How often something happened to a device for a rule.
pub open spec fn count_line(metric: Seq<char>, row: (String, String, u64)) -> Seq<char> {
    metric + "{device=\""@ + esc(row.0@) + "\",reason=\""@ + esc(row.1@) + "\"} "@ + decimal(
        row.2 as nat,
    ) + "\n"@
}

pub open spec fn count_lines(metric: Seq<char>, rows: Seq<(String, String, u64)>) -> Seq<char> {
    cat(rows, |row: (String, String, u64)| count_line(metric, row))
}

pub open spec fn last_lines(rows: Seq<(String, String)>) -> Seq<char> {
    cat(
        rows,
        |row: (String, String)|
            device_line("gocoax_remediator_last_reboot_timestamp_seconds"@, row.0@, row.1@),
    )
}

pub open spec fn circuit_lines(rows: Seq<(String, bool)>) -> Seq<char> {
    cat(
        rows,
        |row: (String, bool)|
            device_line("gocoax_remediator_circuit_open"@, row.0@, flag_text(row.1)),
    )
}

pub open spec fn up_text() -> Seq<char> {
    header(
        "gocoax_remediator_up"@,
        "gauge"@,
        "Whether the remediator daemon is up (always 1 while serving)."@,
    ) + "gocoax_remediator_up 1\n"@
}

pub open spec fn reboots_text(rows: Seq<(String, String, u64)>) -> Seq<char> {
    block(
        header(
            "gocoax_remediator_reboots_total"@,
            "counter"@,
            "Count of reboots performed, by device and triggering rule."@,
        ),
        count_lines("gocoax_remediator_reboots_total"@, rows),
    )
}

pub open spec fn would_reboot_text(rows: Seq<(String, String, u64)>) -> Seq<char> {
    block(
        header(
            "gocoax_remediator_would_reboot_total"@,
            "counter"@,
            "Count of reboots that dry_run suppressed, by device and triggering rule."@,
        ),
        count_lines("gocoax_remediator_would_reboot_total"@, rows),
    )
}

pub open spec fn failures_text(rows: Seq<(String, String, u64)>) -> Seq<char> {
    block(
        header(
            "gocoax_remediator_reboot_failures_total"@,
            "counter"@,
            "Count of reboot attempts that failed, by device and triggering rule."@,
        ),
        count_lines("gocoax_remediator_reboot_failures_total"@, rows),
    )
}

pub open spec fn last_text(rows: Seq<(String, String)>) -> Seq<char> {
    block(
        header(
            "gocoax_remediator_last_reboot_timestamp_seconds"@,
            "gauge"@,
            "Unix timestamp of the device's last reboot performed by this daemon."@,
        ),
        last_lines(rows),
    )
}

pub open spec fn circuit_text(rows: Seq<(String, bool)>) -> Seq<char> {
    block(
        header(
            "gocoax_remediator_circuit_open"@,
            "gauge"@,
            "Whether the circuit breaker has tripped for a device (1=open, no longer auto-rebooting)."@,
        ),
        circuit_lines(rows),
    )
}

/// The metrics as they are shown. A metric without samples is left out.
pub open spec fn rendered(snap: MetricsSnapshot) -> Seq<char> {
    up_text() + reboots_text(snap.reboots_total@) + would_reboot_text(snap.would_reboot_total@)
        + failures_text(snap.reboot_failures_total@) + last_text(snap.last_reboot_ts@)
        + circuit_text(snap.circuit_open@)
}

fn count_rows(metric: &str, rows: &[(String, String, u64)]) -> (r: String)
    ensures
        r@ == count_lines(metric@, rows@),
{
    let ghost f = |row: (String, String, u64)| count_line(metric@, row);
    let mut r: String = String::new();
    let mut i: usize = 0;
    assert(rows@.take(0) =~= Seq::<(String, String, u64)>::empty());
    while i < rows.len()
        invariant
            i <= rows.len(),
            f == (|row: (String, String, u64)| count_line(metric@, row)),
            r@ == cat(rows@.take(i as int), f),
        decreases rows.len() - i,
    {
        proof {
            lemma_cat_step(rows@, i as int, f);
        }
        let device = escaped(rows[i].0.as_str());
        let reason = escaped(rows[i].1.as_str());
        let count = decimal_text(rows[i].2);
        let line = metric.to_owned().concat("{device=\"").concat(device.as_str()).concat(
            "\",reason=\"",
        ).concat(reason.as_str()).concat("\"} ").concat(count.as_str()).concat("\n");
        r.append(line.as_str());
        i = i + 1;
    }
    assert(rows@.take(rows@.len() as int) =~= rows@);
    r
}

fn last_rows(rows: &[(String, String)]) -> (r: String)
    ensures
        r@ == last_lines(rows@),
{
    let ghost f = |row: (String, String)|
        device_line("gocoax_remediator_last_reboot_timestamp_seconds"@, row.0@, row.1@);
    let mut r: String = String::new();
    let mut i: usize = 0;
    assert(rows@.take(0) =~= Seq::<(String, String)>::empty());
    while i < rows.len()
        invariant
            i <= rows.len(),
            f == (|row: (String, String)|
                device_line("gocoax_remediator_last_reboot_timestamp_seconds"@, row.0@, row.1@)),
            r@ == cat(rows@.take(i as int), f),
        decreases rows.len() - i,
    {
        proof {
            lemma_cat_step(rows@, i as int, f);
        }
        let line = device_row(
            "gocoax_remediator_last_reboot_timestamp_seconds",
            rows[i].0.as_str(),
            rows[i].1.as_str(),
        );
        r.append(line.as_str());
        i = i + 1;
    }
    assert(rows@.take(rows@.len() as int) =~= rows@);
    r
}

fn circuit_rows(rows: &[(String, bool)]) -> (r: String)
    ensures
        r@ == circuit_lines(rows@),
{
    let ghost f = |row: (String, bool)|
        device_line("gocoax_remediator_circuit_open"@, row.0@, flag_text(row.1));
    let mut r: String = String::new();
    let mut i: usize = 0;
    assert(rows@.take(0) =~= Seq::<(String, bool)>::empty());
    while i < rows.len()
        invariant
            i <= rows.len(),
            f == (|row: (String, bool)|
                device_line("gocoax_remediator_circuit_open"@, row.0@, flag_text(row.1))),
            r@ == cat(rows@.take(i as int), f),
        decreases rows.len() - i,
    {
        proof {
            lemma_cat_step(rows@, i as int, f);
        }
        let line = device_row(
            "gocoax_remediator_circuit_open",
            rows[i].0.as_str(),
            flag(rows[i].1),
        );
        r.append(line.as_str());
        i = i + 1;
    }
    assert(rows@.take(rows@.len() as int) =~= rows@);
    r
}

/// The remediator's metrics as Prometheus text.
pub fn render(snap: &MetricsSnapshot) -> (r: String)
    ensures
        r@ == rendered(*snap),
{
    let mut out: String = String::new();
    push_header(
        &mut out,
        "gocoax_remediator_up",
        "gauge",
        "Whether the remediator daemon is up (always 1 while serving).",
    );
    out.append("gocoax_remediator_up 1\n");
    assert(out@ =~= up_text());
    let samples = count_rows("gocoax_remediator_reboots_total", snap.reboots_total.as_slice());
    push_block(
        &mut out,
        "gocoax_remediator_reboots_total",
        "counter",
        "Count of reboots performed, by device and triggering rule.",
        samples.as_str(),
    );
    let samples = count_rows(
        "gocoax_remediator_would_reboot_total",
        snap.would_reboot_total.as_slice(),
    );
    push_block(
        &mut out,
        "gocoax_remediator_would_reboot_total",
        "counter",
        "Count of reboots that dry_run suppressed, by device and triggering rule.",
        samples.as_str(),
    );
    let samples = count_rows(
        "gocoax_remediator_reboot_failures_total",
        snap.reboot_failures_total.as_slice(),
    );
    push_block(
        &mut out,
        "gocoax_remediator_reboot_failures_total",
        "counter",
        "Count of reboot attempts that failed, by device and triggering rule.",
        samples.as_str(),
    );
    let samples = last_rows(snap.last_reboot_ts.as_slice());
    push_block(
        &mut out,
        "gocoax_remediator_last_reboot_timestamp_seconds",
        "gauge",
        "Unix timestamp of the device's last reboot performed by this daemon.",
        samples.as_str(),
    );
    let samples = circuit_rows(snap.circuit_open.as_slice());
    push_block(
        &mut out,
        "gocoax_remediator_circuit_open",
        "gauge",
        "Whether the circuit breaker has tripped for a device (1=open, no longer auto-rebooting).",
        samples.as_str(),
    );
    out
}

/// The daemon reports itself up whatever it has done.
pub proof fn law_always_up(snap: MetricsSnapshot)
    ensures
        up_text().is_prefix_of(rendered(snap)),
{
    let rest = reboots_text(snap.reboots_total@) + would_reboot_text(snap.would_reboot_total@)
        + failures_text(snap.reboot_failures_total@) + last_text(snap.last_reboot_ts@)
        + circuit_text(snap.circuit_open@);
    assert(rendered(snap) =~= up_text() + rest);
}

} // verus!
