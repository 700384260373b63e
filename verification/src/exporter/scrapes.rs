//! What holds of a whole scrape, whatever its devices answer.

use super::metrics::{catalog, metric_text, rendered, rows, samples, Metric, OutcomeView};
use super::scrape::{
    device_stepped, errors_after, failures, last_ok_after, law_failures_add_up, law_last_success,
    outcome_of, outcomes_of, read_cleanly, result_of, results_of, DeviceNextView,
    DeviceReadView, DeviceResult, ReadingView, ResultView,
};
use crate::client::Client;
use crate::error::ErrorView;
use crate::exposition::{device_line, flag_text, header};
use crate::tables::{counted, distinct, has_room, lookup, Counts};
use crate::text::{cat, lemma_cat_append};
use vstd::prelude::*;

verus! {

/// What holds of every reading: it has no error exactly where both the status and
/// the rates were read, and the rates are there only where the status is.
pub open spec fn whole(reading: ReadingView) -> bool {
    &&& reading.error is None <==> reading.status is Some && reading.phy is Some
    &&& reading.phy is Some ==> reading.status is Some
}

/// What reading a device comes to is whole.
pub proof fn law_readings_are_whole(
    known: DeviceReadView,
    reply: core::result::Result<Seq<u32>, ErrorView>,
)
    ensures
        device_stepped(known, reply).1 matches DeviceNextView::Done(reading) ==> whole(reading),
{
}

/// Whether `result` is what some reading of the device came to.
pub open spec fn came_of(result: ResultView, name: Seq<char>, host: Seq<char>) -> bool {
    exists|reading: ReadingView, duration: Seq<char>|
        whole(reading) && result == #[trigger] result_of(name, host, reading, duration)
}

/// Whether the slots of a scrape hold what came of the devices that finished.
pub open spec fn slots_filled(
    clients: Seq<(String, String, Client)>,
    slots: Seq<Option<DeviceResult>>,
) -> bool {
    &&& slots.len() == clients.len()
    &&& forall|i: int|
        0 <= i < slots.len() ==> (#[trigger] slots[i] matches Some(result) ==> came_of(
            result@,
            clients[i].0@,
            clients[i].1@,
        ))
}

/// Whether the status of a device came in time.
pub open spec fn status_came(slot: Option<DeviceResult>) -> bool {
    slot matches Some(result) && result.status is Some
}

/// Whether the status and the rates of a device came in time.
pub open spec fn all_came(slot: Option<DeviceResult>) -> bool {
    slot matches Some(result) && result.status is Some && result.phy is Some
}

/// How long the scrape of a device took, as it is shown.
pub open spec fn duration_of(slot: Option<DeviceResult>, elapsed: Seq<char>) -> Seq<char> {
    match slot {
        Some(result) => result.duration_secs@,
        None => elapsed,
    }
}

/// The lines, one behind the other.
pub open spec fn joined(lines: Seq<Seq<char>>) -> Seq<char> {
    cat(lines, |line: Seq<char>| line)
}

proof fn lemma_joined(outcomes: Seq<OutcomeView>, metric: Metric, lines: Seq<Seq<char>>)
    requires
        outcomes.len() == lines.len(),
        forall|i: int| 0 <= i < lines.len() ==> rows(metric, #[trigger] outcomes[i]) == lines[i],
    ensures
        samples(metric, outcomes) == joined(lines),
    decreases lines.len(),
{
    if lines.len() > 0 {
        let before = outcomes.drop_last();
        assert forall|i: int| 0 <= i < before.len() implies rows(metric, #[trigger] before[i])
            == lines.drop_last()[i] by {
            assert(before[i] == outcomes[i]);
        }
        lemma_joined(before, metric, lines.drop_last());
        assert(rows(metric, outcomes[lines.len() - 1]) == lines[lines.len() - 1]);
    }
}

/// A scrape shows the health and the duration of every configured device once, in
/// the order of the configuration, whichever devices fail. A device is up exactly
/// where its status came in time. The health of the devices is what the page begins
/// with, and their durations follow the errors.
pub proof fn law_scrape_shows_every_device(
    clients: Seq<(String, String, Client)>,
    slots: Seq<Option<DeviceResult>>,
    elapsed: Seq<char>,
    errors: Counts,
    last_ok: Seq<(Seq<char>, Seq<char>)>,
)
    requires
        slots_filled(clients, slots),
    ensures
        ({
            let outcomes = outcomes_of(results_of(clients, slots, elapsed), errors, last_ok);
            &&& samples(Metric::Up, outcomes) == joined(
                Seq::new(
                    clients.len(),
                    |i: int|
                        device_line(
                            "gocoax_up"@,
                            clients[i].0@,
                            flag_text(status_came(slots[i])),
                        ),
                ),
            )
            &&& samples(Metric::ScrapeDuration, outcomes) == joined(
                Seq::new(
                    clients.len(),
                    |i: int|
                        device_line(
                            "gocoax_scrape_duration_seconds"@,
                            clients[i].0@,
                            duration_of(slots[i], elapsed),
                        ),
                ),
            )
            &&& rendered(outcomes) == head(Metric::Up) + samples(Metric::Up, outcomes)
                + metric_text(Metric::ScrapeErrors, outcomes) + head(Metric::ScrapeDuration)
                + samples(Metric::ScrapeDuration, outcomes) + cat(
                catalog().skip(3),
                |metric: Metric| metric_text(metric, outcomes),
            )
        }),
{
    let results = results_of(clients, slots, elapsed);
    let outcomes = outcomes_of(results, errors, last_ok);
    let up_lines = Seq::new(
        clients.len(),
        |i: int| device_line("gocoax_up"@, clients[i].0@, flag_text(status_came(slots[i]))),
    );
    let duration_lines = Seq::new(
        clients.len(),
        |i: int|
            device_line(
                "gocoax_scrape_duration_seconds"@,
                clients[i].0@,
                duration_of(slots[i], elapsed),
            ),
    );
    assert forall|i: int| 0 <= i < clients.len() implies {
        &&& rows(Metric::Up, #[trigger] outcomes[i]) == up_lines[i]
        &&& rows(Metric::ScrapeDuration, outcomes[i]) == duration_lines[i]
    } by {
        assert(outcomes[i] == outcome_of(results[i], errors, last_ok));
        lemma_slot(clients, slots, elapsed, i);
    }
    lemma_joined(outcomes, Metric::Up, up_lines);
    lemma_joined(outcomes, Metric::ScrapeDuration, duration_lines);
    lemma_page(outcomes);
}

/// The lines that announce a metric.
pub open spec fn head(metric: Metric) -> Seq<char> {
    header(metric.spec_name(), metric.spec_kind(), metric.spec_help())
}

proof fn lemma_page(outcomes: Seq<OutcomeView>)
    ensures
        rendered(outcomes) == head(Metric::Up) + samples(Metric::Up, outcomes) + metric_text(
            Metric::ScrapeErrors,
            outcomes,
        ) + head(Metric::ScrapeDuration) + samples(Metric::ScrapeDuration, outcomes) + cat(
            catalog().skip(3),
            |metric: Metric| metric_text(metric, outcomes),
        ),
{
    let f = |metric: Metric| metric_text(metric, outcomes);
    let one = seq![Metric::Up];
    let two = seq![Metric::Up, Metric::ScrapeErrors];
    let three = seq![Metric::Up, Metric::ScrapeErrors, Metric::ScrapeDuration];
    assert(one.drop_last() =~= Seq::<Metric>::empty());
    assert(two.drop_last() =~= one);
    assert(three.drop_last() =~= two);
    assert(cat(Seq::<Metric>::empty(), f) == Seq::<char>::empty());
    assert(cat(one, f) =~= f(Metric::Up));
    assert(cat(two, f) == f(Metric::Up) + f(Metric::ScrapeErrors));
    assert(cat(three, f) == f(Metric::Up) + f(Metric::ScrapeErrors) + f(Metric::ScrapeDuration));
    assert(catalog() =~= three + catalog().skip(3));
    lemma_cat_append(three, catalog().skip(3), f);
    assert(rendered(outcomes) =~= head(Metric::Up) + samples(Metric::Up, outcomes) + metric_text(
        Metric::ScrapeErrors,
        outcomes,
    ) + head(Metric::ScrapeDuration) + samples(Metric::ScrapeDuration, outcomes) + cat(
        catalog().skip(3),
        f,
    ));
}

/// What a slot says of its device.
pub proof fn lemma_slot(
    clients: Seq<(String, String, Client)>,
    slots: Seq<Option<DeviceResult>>,
    elapsed: Seq<char>,
    i: int,
)
    requires
        slots_filled(clients, slots),
        0 <= i < clients.len(),
    ensures
        ({
            let result = results_of(clients, slots, elapsed)[i];
            &&& result.name == clients[i].0@
            &&& result.up == status_came(slots[i])
            &&& result.duration_secs == duration_of(slots[i], elapsed)
            &&& result.error_reason is None <==> all_came(slots[i])
            &&& slots[i] is None ==> result.error_reason == Some("timeout"@)
        }),
{
    if let Some(result) = slots[i] {
        assert(came_of(result@, clients[i].0@, clients[i].1@));
        let (reading, duration) = choose|reading: ReadingView, duration: Seq<char>|
            whole(reading) && result@ == #[trigger] result_of(
                clients[i].0@,
                clients[i].1@,
                reading,
                duration,
            );
        assert(whole(reading));
    }
}

/// What one device answers changes nothing of what is shown of another, save the
/// counts across scrapes that devices of one name share.
pub proof fn law_devices_do_not_meddle(
    clients: Seq<(String, String, Client)>,
    slots: Seq<Option<DeviceResult>>,
    other_slots: Seq<Option<DeviceResult>>,
    elapsed: Seq<char>,
    errors: Counts,
    other_errors: Counts,
    last_ok: Seq<(Seq<char>, Seq<char>)>,
    other_last_ok: Seq<(Seq<char>, Seq<char>)>,
    metric: Metric,
    i: int,
)
    requires
        0 <= i < clients.len(),
        slots[i] == other_slots[i],
        metric !is ScrapeErrors,
        metric !is LastSuccess,
    ensures
        rows(
            metric,
            outcomes_of(results_of(clients, slots, elapsed), errors, last_ok)[i],
        ) == rows(
            metric,
            outcomes_of(
                results_of(clients, other_slots, elapsed),
                other_errors,
                other_last_ok,
            )[i],
        ),
{
}

/// Whether no two devices have one name.
pub open spec fn names_differ(clients: Seq<(String, String, Client)>) -> bool {
    forall|i: int, j: int|
        0 <= i < j < clients.len() ==> (#[trigger] clients[i]).0@ != (#[trigger] clients[j]).0@
}

/// Whether the results are named as the devices are.
spec fn named_alike(results: Seq<ResultView>, clients: Seq<(String, String, Client)>) -> bool {
    &&& results.len() <= clients.len()
    &&& forall|k: int| 0 <= k < results.len() ==> (#[trigger] results[k]).name == clients[k].0@
}

proof fn lemma_own_failures(
    results: Seq<ResultView>,
    clients: Seq<(String, String, Client)>,
    i: int,
    reason: Seq<char>,
)
    requires
        names_differ(clients),
        named_alike(results, clients),
        0 <= i < clients.len(),
    ensures
        failures(results, (clients[i].0@, reason)) == if i < results.len()
            && results[i].error_reason == Some(reason) {
            1nat
        } else {
            0
        },
    decreases results.len(),
{
    if results.len() > 0 {
        let before = results.drop_last();
        assert forall|k: int| 0 <= k < before.len() implies (#[trigger] before[k]).name
            == clients[k].0@ by {
            assert(results[k].name == clients[k].0@);
        }
        lemma_own_failures(before, clients, i, reason);
        let n = results.len() - 1;
        assert(results[n].name == clients[n].0@);
        if n < i {
            assert(clients[n].0@ != clients[i].0@);
        } else if i < n {
            assert(clients[i].0@ != clients[n].0@);
        }
    }
}

/// Where devices have different names, a scrape does exactly one of two things
/// for each: where its status and rates came in time, the time of its last success
/// becomes `now` and none of its error counts changes; otherwise exactly one of
/// its error counts grows, by one, under the reason of the failure or `timeout`,
/// and the time of its last success stays.
pub proof fn law_success_or_failure(
    clients: Seq<(String, String, Client)>,
    slots: Seq<Option<DeviceResult>>,
    elapsed: Seq<char>,
    now: Seq<char>,
    errors: Counts,
    last_ok: Seq<(Seq<char>, Seq<char>)>,
    i: int,
    reason: Seq<char>,
)
    requires
        slots_filled(clients, slots),
        names_differ(clients),
        distinct(errors),
        distinct(last_ok),
        has_room(errors, clients.len()),
        0 <= i < clients.len(),
    ensures
        ({
            let results = results_of(clients, slots, elapsed);
            let name = clients[i].0@;
            let key = (name, reason);
            let grown = counted(errors_after(errors, results), key) - counted(errors, key);
            let success = lookup(last_ok_after(last_ok, results, now), name);
            if all_came(slots[i]) {
                success == Some(now) && grown == 0
            } else {
                &&& success == lookup(last_ok, name)
                &&& results[i].error_reason is Some
                &&& slots[i] is None ==> results[i].error_reason == Some("timeout"@)
                &&& grown == if results[i].error_reason == Some(reason) {
                    1int
                } else {
                    0
                }
            }
        }),
{
    let results = results_of(clients, slots, elapsed);
    let name = clients[i].0@;
    assert forall|k: int| 0 <= k < results.len() implies (#[trigger] results[k]).name
        == clients[k].0@ by {
        lemma_slot(clients, slots, elapsed, k);
    }
    lemma_slot(clients, slots, elapsed, i);
    lemma_own_failures(results, clients, i, reason);
    law_failures_add_up(errors, results, (name, reason));
    law_last_success(last_ok, results, now, name);
    if all_came(slots[i]) {
        assert(results[i].up && results[i].error_reason is None);
        assert(read_cleanly(results, name));
    } else if read_cleanly(results, name) {
        let k = choose|k: int|
            0 <= k < results.len() && (#[trigger] results[k]).name == name && results[k].up
                && results[k].error_reason is None;
        lemma_slot(clients, slots, elapsed, k);
        if k < i {
            assert(clients[k].0@ != clients[i].0@);
        } else if i < k {
            assert(clients[i].0@ != clients[k].0@);
        }
    }
}

} // verus!
