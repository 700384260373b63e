//! What a reader finds on the remediator's page.

use crate::exposition::{device_line, flag_text};
use crate::laws::metrics::{
    all_fit, announced, each, lemma_decimal_plain, lemma_device_line, lemma_each, lemma_flag,
    lemma_label_names, lemma_marks, lemma_page_append, lemma_page_one, lemma_section, lemma_two,
    of_device, of_two, one_or_zero, section,
};
use crate::laws::page::{
    entry_text, fit, is_name, law_page_reads_back, one_line, page_text, read_page, Entry,
};
use crate::remediator::metrics::{
    circuit_lines, count_line, count_lines, last_lines, rendered, MetricsSnapshot,
};
use crate::remediator::poller::Books;
use crate::tables::{table_view, tally_view, CountKey, Counts};
use crate::text::decimal;
use vstd::prelude::*;

verus! {

/// The samples of a counter: one for each device and rule.
pub open spec fn count_samples(metric: Seq<char>, rows: Seq<(String, String, u64)>) -> Seq<Entry> {
    each(
        rows,
        |row: (String, String, u64)|
            seq![of_two(metric, row.0@, ("reason"@, row.1@), decimal(row.2 as nat))],
    )
}

/// What the page says, metric by metric.
pub open spec fn reboot_listing(snap: MetricsSnapshot) -> Seq<Entry> {
    announced(
        "gocoax_remediator_up"@,
        "gauge"@,
        "Whether the remediator daemon is up (always 1 while serving)."@,
        seq![
            Entry::Sample {
                metric: "gocoax_remediator_up"@,
                labels: Seq::empty(),
                value: seq!['1'],
            },
        ],
    ) + section(
        "gocoax_remediator_reboots_total"@,
        "counter"@,
        "Count of reboots performed, by device and triggering rule."@,
        count_samples("gocoax_remediator_reboots_total"@, snap.reboots_total@),
    ) + section(
        "gocoax_remediator_would_reboot_total"@,
        "counter"@,
        "Count of reboots that dry_run suppressed, by device and triggering rule."@,
        count_samples("gocoax_remediator_would_reboot_total"@, snap.would_reboot_total@),
    ) + section(
        "gocoax_remediator_reboot_failures_total"@,
        "counter"@,
        "Count of reboot attempts that failed, by device and triggering rule."@,
        count_samples("gocoax_remediator_reboot_failures_total"@, snap.reboot_failures_total@),
    ) + section(
        "gocoax_remediator_last_reboot_timestamp_seconds"@,
        "gauge"@,
        "Unix timestamp of the device's last reboot performed by this daemon."@,
        each(
            snap.last_reboot_ts@,
            |row: (String, String)|
                seq![
                    of_device(
                        "gocoax_remediator_last_reboot_timestamp_seconds"@,
                        row.0@,
                        row.1@,
                    ),
                ],
        ),
    ) + section(
        "gocoax_remediator_circuit_open"@,
        "gauge"@,
        "Whether the circuit breaker has tripped for a device (1=open, no longer auto-rebooting)."@,
        each(
            snap.circuit_open@,
            |row: (String, bool)|
                seq![of_device("gocoax_remediator_circuit_open"@, row.0@, one_or_zero(row.1))],
        ),
    )
}

proof fn lemma_reboot_names()
    ensures
        is_name("gocoax_remediator_up"@),
        is_name("gocoax_remediator_reboots_total"@),
        is_name("gocoax_remediator_would_reboot_total"@),
        is_name("gocoax_remediator_reboot_failures_total"@),
        is_name("gocoax_remediator_last_reboot_timestamp_seconds"@),
        is_name("gocoax_remediator_circuit_open"@),
        one_line("gauge"@),
        one_line("counter"@),
{
    assert(is_name("gocoax_remediator_up"@)) by {
        reveal_strlit("gocoax_remediator_up");
    }
    assert(is_name("gocoax_remediator_reboots_total"@)) by {
        reveal_strlit("gocoax_remediator_reboots_total");
    }
    assert(is_name("gocoax_remediator_would_reboot_total"@)) by {
        reveal_strlit("gocoax_remediator_would_reboot_total");
    }
    assert(is_name("gocoax_remediator_reboot_failures_total"@)) by {
        reveal_strlit("gocoax_remediator_reboot_failures_total");
    }
    assert(is_name("gocoax_remediator_last_reboot_timestamp_seconds"@)) by {
        reveal_strlit("gocoax_remediator_last_reboot_timestamp_seconds");
    }
    assert(is_name("gocoax_remediator_circuit_open"@)) by {
        reveal_strlit("gocoax_remediator_circuit_open");
    }
    assert(one_line("gauge"@)) by {
        reveal_strlit("gauge");
    }
    assert(one_line("counter"@)) by {
        reveal_strlit("counter");
    }
}

proof fn lemma_reboot_helps()
    ensures
        one_line("Whether the remediator daemon is up (always 1 while serving)."@),
        one_line("Count of reboots performed, by device and triggering rule."@),
        one_line("Count of reboots that dry_run suppressed, by device and triggering rule."@),
        one_line("Count of reboot attempts that failed, by device and triggering rule."@),
        one_line("Unix timestamp of the device's last reboot performed by this daemon."@),
        one_line(
            "Whether the circuit breaker has tripped for a device (1=open, no longer auto-rebooting)."@,
        ),
{
    assert(one_line("Whether the remediator daemon is up (always 1 while serving)."@)) by {
        reveal_strlit("Whether the remediator daemon is up (always 1 while serving).");
    }
    assert(one_line("Count of reboots performed, by device and triggering rule."@)) by {
        reveal_strlit("Count of reboots performed, by device and triggering rule.");
    }
    assert(one_line(
        "Count of reboots that dry_run suppressed, by device and triggering rule."@,
    )) by {
        reveal_strlit("Count of reboots that dry_run suppressed, by device and triggering rule.");
    }
    assert(one_line("Count of reboot attempts that failed, by device and triggering rule."@)) by {
        reveal_strlit("Count of reboot attempts that failed, by device and triggering rule.");
    }
    assert(one_line("Unix timestamp of the device's last reboot performed by this daemon."@)) by {
        reveal_strlit("Unix timestamp of the device's last reboot performed by this daemon.");
    }
    assert(one_line(
        "Whether the circuit breaker has tripped for a device (1=open, no longer auto-rebooting)."@,
    )) by {
        reveal_strlit(
            "Whether the circuit breaker has tripped for a device (1=open, no longer auto-rebooting).",
        );
    }
}

proof fn lemma_up()
    ensures
        ({
            let sample = Entry::Sample {
                metric: "gocoax_remediator_up"@,
                labels: Seq::empty(),
                value: seq!['1'],
            };
            "gocoax_remediator_up 1\n"@ == entry_text(sample) && fit(sample)
        }),
{
    let sample = Entry::Sample {
        metric: "gocoax_remediator_up"@,
        labels: Seq::empty(),
        value: seq!['1'],
    };
    lemma_reboot_names();
    reveal_strlit("gocoax_remediator_up 1\n");
    reveal_strlit("gocoax_remediator_up");
    assert("gocoax_remediator_up 1\n"@ =~= entry_text(sample));
}

proof fn lemma_reason_mark()
    ensures
        "\",reason=\""@ == seq!['"'] + seq![','] + "reason"@ + seq!['=', '"'],
{
    reveal_strlit("\",reason=\"");
    reveal_strlit("reason");
    assert("\",reason=\""@ =~= seq!['"'] + seq![','] + "reason"@ + seq!['=', '"']);
}

proof fn lemma_count_line(metric: Seq<char>, row: (String, String, u64))
    requires
        is_name(metric),
    ensures
        ({
            let sample = of_two(metric, row.0@, ("reason"@, row.1@), decimal(row.2 as nat));
            count_line(metric, row) == entry_text(sample) && fit(sample)
        }),
{
    let sample = of_two(metric, row.0@, ("reason"@, row.1@), decimal(row.2 as nat));
    lemma_marks();
    lemma_reason_mark();
    lemma_label_names();
    lemma_decimal_plain(row.2 as nat);
    lemma_two(("device"@, row.0@), ("reason"@, row.1@));
    assert(count_line(metric, row) =~= entry_text(sample));
}

proof fn lemma_counts(metric: Seq<char>, rows: Seq<(String, String, u64)>)
    requires
        is_name(metric),
    ensures
        count_lines(metric, rows) == page_text(count_samples(metric, rows)),
        all_fit(count_samples(metric, rows)),
{
    let f = |row: (String, String, u64)|
        seq![of_two(metric, row.0@, ("reason"@, row.1@), decimal(row.2 as nat))];
    let g = |row: (String, String, u64)| count_line(metric, row);
    assert forall|i: int| 0 <= i < rows.len() implies {
        &&& g(#[trigger] rows[i]) == page_text(f(rows[i]))
        &&& all_fit(f(rows[i]))
    } by {
        let row = rows[i];
        lemma_count_line(metric, row);
        lemma_page_one(of_two(metric, row.0@, ("reason"@, row.1@), decimal(row.2 as nat)));
    }
    lemma_each(rows, f, g);
}

proof fn lemma_lasts(rows: Seq<(String, String)>)
    requires
        forall|i: int| 0 <= i < rows.len() ==> one_line((#[trigger] rows[i]).1@),
    ensures
        ({
            let list = each(
                rows,
                |row: (String, String)|
                    seq![
                        of_device(
                            "gocoax_remediator_last_reboot_timestamp_seconds"@,
                            row.0@,
                            row.1@,
                        ),
                    ],
            );
            last_lines(rows) == page_text(list) && all_fit(list)
        }),
{
    let metric = "gocoax_remediator_last_reboot_timestamp_seconds"@;
    let f = |row: (String, String)|
        seq![
            of_device("gocoax_remediator_last_reboot_timestamp_seconds"@, row.0@, row.1@),
        ];
    let g = |row: (String, String)|
        device_line("gocoax_remediator_last_reboot_timestamp_seconds"@, row.0@, row.1@);
    lemma_reboot_names();
    assert forall|i: int| 0 <= i < rows.len() implies {
        &&& g(#[trigger] rows[i]) == page_text(f(rows[i]))
        &&& all_fit(f(rows[i]))
    } by {
        lemma_device_line(metric, rows[i].0@, rows[i].1@);
        lemma_page_one(of_device(metric, rows[i].0@, rows[i].1@));
    }
    lemma_each(rows, f, g);
}

proof fn lemma_circuits(rows: Seq<(String, bool)>)
    ensures
        ({
            let list = each(
                rows,
                |row: (String, bool)|
                    seq![of_device("gocoax_remediator_circuit_open"@, row.0@, one_or_zero(row.1))],
            );
            circuit_lines(rows) == page_text(list) && all_fit(list)
        }),
{
    let metric = "gocoax_remediator_circuit_open"@;
    let f = |row: (String, bool)|
        seq![of_device("gocoax_remediator_circuit_open"@, row.0@, one_or_zero(row.1))];
    let g = |row: (String, bool)|
        device_line("gocoax_remediator_circuit_open"@, row.0@, flag_text(row.1));
    lemma_reboot_names();
    assert forall|i: int| 0 <= i < rows.len() implies {
        &&& g(#[trigger] rows[i]) == page_text(f(rows[i]))
        &&& all_fit(f(rows[i]))
    } by {
        lemma_flag(rows[i].1);
        lemma_device_line(metric, rows[i].0@, one_or_zero(rows[i].1));
        lemma_page_one(of_device(metric, rows[i].0@, one_or_zero(rows[i].1)));
    }
    lemma_each(rows, f, g);
}

/// The remediator's page reads back as what it has done: every counter by device and
/// rule, the last reboots and the breakers by device, each under its name, kind and
/// help.
pub proof fn law_page_tells_what_was_done(snap: MetricsSnapshot)
    requires
        forall|i: int|
            0 <= i < snap.last_reboot_ts@.len() ==> one_line((#[trigger] snap.last_reboot_ts@[i]).1@),
    ensures
        read_page(rendered(snap)) == Some(reboot_listing(snap)),
{
    lemma_reboot_names();
    lemma_reboot_helps();
    lemma_up();
    let sample = Entry::Sample {
        metric: "gocoax_remediator_up"@,
        labels: Seq::empty(),
        value: seq!['1'],
    };
    lemma_page_one(sample);
    let gauge = "gauge"@;
    let counter = "counter"@;
    let n0 = "gocoax_remediator_up"@;
    let h0 = "Whether the remediator daemon is up (always 1 while serving)."@;
    lemma_section(n0, gauge, h0, seq![sample]);
    let p0 = announced(n0, gauge, h0, seq![sample]);
    let n1 = "gocoax_remediator_reboots_total"@;
    let h1 = "Count of reboots performed, by device and triggering rule."@;
    let l1 = count_samples(n1, snap.reboots_total@);
    lemma_counts(n1, snap.reboots_total@);
    lemma_section(n1, counter, h1, l1);
    let p1 = section(n1, counter, h1, l1);
    let n2 = "gocoax_remediator_would_reboot_total"@;
    let h2 = "Count of reboots that dry_run suppressed, by device and triggering rule."@;
    let l2 = count_samples(n2, snap.would_reboot_total@);
    lemma_counts(n2, snap.would_reboot_total@);
    lemma_section(n2, counter, h2, l2);
    let p2 = section(n2, counter, h2, l2);
    let n3 = "gocoax_remediator_reboot_failures_total"@;
    let h3 = "Count of reboot attempts that failed, by device and triggering rule."@;
    let l3 = count_samples(n3, snap.reboot_failures_total@);
    lemma_counts(n3, snap.reboot_failures_total@);
    lemma_section(n3, counter, h3, l3);
    let p3 = section(n3, counter, h3, l3);
    let n4 = "gocoax_remediator_last_reboot_timestamp_seconds"@;
    let h4 = "Unix timestamp of the device's last reboot performed by this daemon."@;
    let l4 = each(
        snap.last_reboot_ts@,
        |row: (String, String)|
            seq![
                of_device("gocoax_remediator_last_reboot_timestamp_seconds"@, row.0@, row.1@),
            ],
    );
    lemma_lasts(snap.last_reboot_ts@);
    lemma_section(n4, gauge, h4, l4);
    let p4 = section(n4, gauge, h4, l4);
    let n5 = "gocoax_remediator_circuit_open"@;
    let h5 =
        "Whether the circuit breaker has tripped for a device (1=open, no longer auto-rebooting)."@;
    let l5 = each(
        snap.circuit_open@,
        |row: (String, bool)|
            seq![of_device("gocoax_remediator_circuit_open"@, row.0@, one_or_zero(row.1))],
    );
    lemma_circuits(snap.circuit_open@);
    lemma_section(n5, gauge, h5, l5);
    let p5 = section(n5, gauge, h5, l5);
    lemma_page_append(p0, p1);
    lemma_page_append(p0 + p1, p2);
    lemma_page_append(p0 + p1 + p2, p3);
    lemma_page_append(p0 + p1 + p2 + p3, p4);
    lemma_page_append(p0 + p1 + p2 + p3 + p4, p5);
    let all = p0 + p1 + p2 + p3 + p4 + p5;
    assert(all == reboot_listing(snap));
    assert(rendered(snap) == page_text(all));
    law_page_reads_back(all);
}

/// The samples of a counter, told by its table.
pub open spec fn counter_samples(metric: Seq<char>, rows: Counts) -> Seq<Entry> {
    each(
        rows,
        |row: (CountKey, u64)|
            seq![of_two(metric, row.0.0, ("reason"@, row.0.1), decimal(row.1 as nat))],
    )
}

/// What the page says of what is remembered.
pub open spec fn books_listing(books: Books) -> Seq<Entry> {
    announced(
        "gocoax_remediator_up"@,
        "gauge"@,
        "Whether the remediator daemon is up (always 1 while serving)."@,
        seq![
            Entry::Sample {
                metric: "gocoax_remediator_up"@,
                labels: Seq::empty(),
                value: seq!['1'],
            },
        ],
    ) + section(
        "gocoax_remediator_reboots_total"@,
        "counter"@,
        "Count of reboots performed, by device and triggering rule."@,
        counter_samples("gocoax_remediator_reboots_total"@, books.reboots_total),
    ) + section(
        "gocoax_remediator_would_reboot_total"@,
        "counter"@,
        "Count of reboots that dry_run suppressed, by device and triggering rule."@,
        counter_samples("gocoax_remediator_would_reboot_total"@, books.would_reboot_total),
    ) + section(
        "gocoax_remediator_reboot_failures_total"@,
        "counter"@,
        "Count of reboot attempts that failed, by device and triggering rule."@,
        counter_samples("gocoax_remediator_reboot_failures_total"@, books.reboot_failures_total),
    ) + section(
        "gocoax_remediator_last_reboot_timestamp_seconds"@,
        "gauge"@,
        "Unix timestamp of the device's last reboot performed by this daemon."@,
        each(
            books.last_reboot_ts,
            |row: (Seq<char>, Seq<char>)|
                seq![
                    of_device("gocoax_remediator_last_reboot_timestamp_seconds"@, row.0, row.1),
                ],
        ),
    ) + section(
        "gocoax_remediator_circuit_open"@,
        "gauge"@,
        "Whether the circuit breaker has tripped for a device (1=open, no longer auto-rebooting)."@,
        each(
            books.circuit_open,
            |row: (Seq<char>, bool)|
                seq![of_device("gocoax_remediator_circuit_open"@, row.0, one_or_zero(row.1))],
        ),
    )
}

proof fn lemma_each_same<A, B>(
    a: Seq<A>,
    b: Seq<B>,
    f: spec_fn(A) -> Seq<Entry>,
    g: spec_fn(B) -> Seq<Entry>,
)
    requires
        a.len() == b.len(),
        forall|i: int| 0 <= i < a.len() ==> f(#[trigger] a[i]) == g(b[i]),
    ensures
        each(a, f) == each(b, g),
    decreases a.len(),
{
    if a.len() > 0 {
        let n = a.len() - 1;
        assert(f(a[n]) == g(b[n]));
        assert forall|i: int| 0 <= i < a.drop_last().len() implies f(#[trigger] a.drop_last()[i])
            == g(b.drop_last()[i]) by {
            assert(f(a[i]) == g(b[i]));
        }
        lemma_each_same(a.drop_last(), b.drop_last(), f, g);
    }
}

proof fn lemma_counter_samples(metric: Seq<char>, rows: Seq<(String, String, u64)>)
    ensures
        count_samples(metric, rows) == counter_samples(metric, tally_view(rows)),
{
    let f = |row: (String, String, u64)|
        seq![of_two(metric, row.0@, ("reason"@, row.1@), decimal(row.2 as nat))];
    let g = |row: (CountKey, u64)|
        seq![of_two(metric, row.0.0, ("reason"@, row.0.1), decimal(row.1 as nat))];
    lemma_each_same(rows, tally_view(rows), f, g);
}

/// What is remembered can be read from the page: every counter under its own name, the
/// last reboots and the breakers.
pub proof fn law_page_tells_the_books(books: Books, snap: MetricsSnapshot)
    requires
        books.shown_by(snap),
        forall|i: int|
            0 <= i < books.last_reboot_ts.len() ==> one_line(
                (#[trigger] books.last_reboot_ts[i]).1,
            ),
    ensures
        read_page(rendered(snap)) == Some(books_listing(books)),
{
    let lasts = snap.last_reboot_ts@;
    assert forall|i: int| 0 <= i < lasts.len() implies one_line((#[trigger] lasts[i]).1@) by {
        assert(table_view(lasts)[i].1 == lasts[i].1@);
        assert(one_line(books.last_reboot_ts[i].1));
    }
    law_page_tells_what_was_done(snap);
    lemma_counter_samples("gocoax_remediator_reboots_total"@, snap.reboots_total@);
    lemma_counter_samples("gocoax_remediator_would_reboot_total"@, snap.would_reboot_total@);
    lemma_counter_samples("gocoax_remediator_reboot_failures_total"@, snap.reboot_failures_total@);
    lemma_each_same(
        lasts,
        books.last_reboot_ts,
        |row: (String, String)|
            seq![
                of_device("gocoax_remediator_last_reboot_timestamp_seconds"@, row.0@, row.1@),
            ],
        |row: (Seq<char>, Seq<char>)|
            seq![of_device("gocoax_remediator_last_reboot_timestamp_seconds"@, row.0, row.1)],
    );
    lemma_each_same(
        snap.circuit_open@,
        books.circuit_open,
        |row: (String, bool)|
            seq![of_device("gocoax_remediator_circuit_open"@, row.0@, one_or_zero(row.1))],
        |row: (Seq<char>, bool)|
            seq![of_device("gocoax_remediator_circuit_open"@, row.0, one_or_zero(row.1))],
    );
}

} // verus!
