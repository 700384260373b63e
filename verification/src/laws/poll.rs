//! What a poll of the remediator does with each device, told from the device's own
//! state, the limits, the moment and the day.

use crate::config::{device_named, lemma_device_named, Config};
use crate::remediator::config::{RemediatorConfig, Rule};
use crate::remediator::poller::{
    begun, books_with, judged, poll_with, stepped, Action, Books, EventView, PollView,
};
use crate::remediator::runs::{
    law_poll_in_order, matches_by_rule, polled, with_device, with_names, with_rules, Given, Outcome,
};
use crate::remediator::state::{
    after_attempt, decision, spec_cooldown_left, Decision, DeviceStateView, Limits,
};
use crate::tables::{
    counted, distinct, lemma_bumped, lemma_place, lemma_put, lookup, row_at, CountKey,
};
use vstd::prelude::*;

verus! {

/// Whether the configuration has a device of that name.
pub open spec fn configured(cfg: Config, name: Seq<char>) -> bool {
    exists|i: int| 0 <= i < cfg.device@.len() && (#[trigger] cfg.device@[i]).name@ == name
}

/// The reboots of a device that count for a day.
pub open spec fn count_on(st: DeviceStateView, today: Seq<char>) -> int {
    if st.day == today {
        st.reboots_today as int
    } else {
        0
    }
}

/// The moment from which on a device may be rebooted again, in nanoseconds.
pub open spec fn free_at(st: DeviceStateView, rcfg: RemediatorConfig) -> int {
    match st.last_reboot_unix {
        Some(last) => last + rcfg.cooldown_secs * 1_000_000_000,
        None => 0,
    }
}

/// Whether the state of a device allows a reboot: the limit of the day is not
/// reached, and the cooldown is over.
pub open spec fn may_reboot(
    st: DeviceStateView,
    rcfg: RemediatorConfig,
    now: u64,
    today: Seq<char>,
) -> bool {
    count_on(st, today) < rcfg.max_reboots_per_day && now >= free_at(st, rcfg)
}

/// A device that a rule matches is dealt with by its own state alone, whatever other
/// devices the poll has acted on: it is passed over where the poll has acted on it,
/// unknown where it is not configured, held back by the breaker where its limit of
/// the day is reached, left to its cooldown until that is over, and else rebooted, or
/// announced in a dry run.
pub proof fn law_device_decided_by_its_own_state(
    cfg: Config,
    rcfg: RemediatorConfig,
    books: Books,
    poll: PollView,
    name: Seq<char>,
)
    ensures
        ({
            let action = judged(cfg, rcfg, books, poll, name);
            let st = books.state_of(name);
            let reached = count_on(st, poll.today) >= rcfg.max_reboots_per_day;
            if poll.handled.contains(name) {
                action == Action::Handled
            } else if !configured(cfg, name) {
                action == Action::Unknown
            } else if reached {
                action == Action::CircuitOpen
            } else if poll.now < free_at(st, rcfg) {
                action matches Action::Cooldown { left } && left as int == free_at(st, rcfg)
                    - poll.now
            } else if rcfg.dry_run {
                action == Action::WouldReboot
            } else {
                action matches Action::Reboot { device } && device < cfg.device@.len()
                    && cfg.device@[device as int].name@ == name && forall|i: int|
                    0 <= i < device ==> (#[trigger] cfg.device@[i]).name@ != name
            }
        }),
{
    lemma_device_named(cfg.device@, name);
    assert(cfg.device.len() == cfg.device@.len());
    if let Some(i) = device_named(cfg.device@, name) {
        assert(cfg.device@[i].name@ == name);
    }
    let st = books.state_of(name);
    if let Some(last) = st.last_reboot_unix {
        assert(rcfg.cooldown_secs * 1_000_000_000 <= u64::MAX * 1_000_000_000);
    }
}

/// What is remembered of a device is what its row says; a device without a row was
/// never rebooted.
pub proof fn law_state_by_row(books: Books, name: Seq<char>)
    requires
        distinct(books.devices),
    ensures
        forall|i: int|
            0 <= i < books.devices.len() && (#[trigger] books.devices[i]).0 == name
                ==> books.state_of(name) == books.devices[i].1,
        (forall|i: int| 0 <= i < books.devices.len() ==> (#[trigger] books.devices[i]).0 != name)
            ==> books.state_of(name).last_reboot_unix is None && books.state_of(name).reboots_today
            == 0,
{
    assert forall|i: int| 0 <= i < books.devices.len() && (#[trigger] books.devices[i]).0
        == name implies books.state_of(name) == books.devices[i].1 by {
        assert(row_at(books.devices, name, i));
        lemma_place(books.devices, name, i);
    }
}

/// The device that a poll acts on with the look at `m`: whether it acts on it.
spec fn acts(
    cfg: Config,
    rcfg: RemediatorConfig,
    when: PollView,
    so_far: Outcome,
    m: Seq<char>,
) -> bool {
    &&& !so_far.handled.contains(m)
    &&& configured(cfg, m)
    &&& may_reboot(so_far.books.state_of(m), rcfg, when.now, when.today)
}

/// One more, where `b` holds.
pub open spec fn one_if(b: bool) -> int {
    if b {
        1
    } else {
        0
    }
}

/// What one look at a device changes.
proof fn lemma_look(
    cfg: Config,
    rcfg: RemediatorConfig,
    given: Given,
    when: PollView,
    so_far: Outcome,
    reason: Seq<char>,
    m: Seq<char>,
    n: Seq<char>,
    key: CountKey,
)
    requires
        so_far.books.wf(),
        acts(cfg, rcfg, when, so_far, m) ==> {
            &&& counted(so_far.books.reboots_total, (m, reason)) < u64::MAX
            &&& counted(so_far.books.would_reboot_total, (m, reason)) < u64::MAX
            &&& counted(so_far.books.reboot_failures_total, (m, reason)) < u64::MAX
        },
    ensures
        ({
            let next = with_device(cfg, rcfg, given, when, so_far, reason, m);
            let acted = acts(cfg, rcfg, when, so_far, m);
            let st = so_far.books.state_of(m);
            let looked = !so_far.handled.contains(m) && configured(cfg, m);
            let own = acted && key == (m, reason);
            &&& next.books.wf()
            &&& next.handled == if acted {
                so_far.handled.push(m)
            } else {
                so_far.handled
            }
            &&& next.books.state_of(n) == if acted && n == m {
                DeviceStateView {
                    last_reboot_unix: Some(when.now),
                    day: when.today,
                    reboots_today: (count_on(st, when.today) + 1) as u32,
                }
            } else {
                so_far.books.state_of(n)
            }
            &&& counted(next.books.would_reboot_total, key) == counted(
                so_far.books.would_reboot_total,
                key,
            ) + one_if(own && rcfg.dry_run)
            &&& counted(next.books.reboots_total, key) == counted(so_far.books.reboots_total, key)
                + one_if(own && !rcfg.dry_run && (given.works)(m))
            &&& counted(next.books.reboot_failures_total, key) == counted(
                so_far.books.reboot_failures_total,
                key,
            ) + one_if(own && !rcfg.dry_run && !(given.works)(m))
            &&& lookup(next.books.circuit_open, n) == if looked && n == m {
                Some(count_on(st, when.today) >= rcfg.max_reboots_per_day)
            } else {
                lookup(so_far.books.circuit_open, n)
            }
            &&& lookup(next.books.last_reboot_ts, n) == if acted && n == m && !rcfg.dry_run && (
            given.works)(m) {
                Some(when.shown)
            } else {
                lookup(so_far.books.last_reboot_ts, n)
            }
            &&& if acted && !rcfg.dry_run {
                next.reboots.len() == so_far.reboots.len() + 1 && next.reboots.drop_last()
                    == so_far.reboots && next.reboots.last() < cfg.device@.len()
                    && cfg.device@[next.reboots.last() as int].name@ == m
            } else {
                next.reboots == so_far.reboots
            }
        }),
{
    let poll = PollView { handled: so_far.handled, ..when };
    let action = judged(cfg, rcfg, so_far.books, poll, m);
    law_device_decided_by_its_own_state(cfg, rcfg, so_far.books, poll, m);
    let b = so_far.books;
    let own = (m, reason);
    lemma_put(b.circuit_open, m, true);
    lemma_put(b.circuit_open, m, false);
    let st = DeviceStateView {
        last_reboot_unix: Some(when.now),
        day: when.today,
        reboots_today: (count_on(b.state_of(m), when.today) + 1) as u32,
    };
    lemma_put(b.devices, m, st);
    lemma_put(b.last_reboot_ts, m, when.shown);
    if acts(cfg, rcfg, when, so_far, m) {
        lemma_bumped(b.would_reboot_total, own);
        lemma_bumped(b.reboots_total, own);
        lemma_bumped(b.reboot_failures_total, own);
        let next = with_device(cfg, rcfg, given, when, so_far, reason, m);
        if !rcfg.dry_run {
            assert(next.reboots.drop_last() =~= so_far.reboots);
        }
    }
}

/// What comes of looks at devices, each for the rule `.0` at the device `.1`, one
/// after the other.
spec fn looked(
    cfg: Config,
    rcfg: RemediatorConfig,
    given: Given,
    when: PollView,
    start: Outcome,
    looks: Seq<(Seq<char>, Seq<char>)>,
) -> Outcome
    decreases looks.len(),
{
    if looks.len() == 0 {
        start
    } else {
        let before = looked(cfg, rcfg, given, when, start, looks.drop_last());
        with_device(cfg, rcfg, given, when, before, looks.last().0, looks.last().1)
    }
}

/// The looks that one rule gives.
spec fn looks_of(reason: Seq<char>, names: Seq<Seq<char>>) -> Seq<(Seq<char>, Seq<char>)> {
    names.map_values(|name: Seq<char>| (reason, name))
}

/// The looks that all rules give.
spec fn all_looks(rules: Seq<(Seq<char>, Seq<Seq<char>>)>) -> Seq<(Seq<char>, Seq<char>)>
    decreases rules.len(),
{
    if rules.len() == 0 {
        Seq::empty()
    } else {
        all_looks(rules.drop_last()) + looks_of(rules.last().0, rules.last().1)
    }
}

proof fn lemma_names_looked(
    cfg: Config,
    rcfg: RemediatorConfig,
    given: Given,
    when: PollView,
    start: Outcome,
    looks: Seq<(Seq<char>, Seq<char>)>,
    reason: Seq<char>,
    names: Seq<Seq<char>>,
)
    ensures
        with_names(
            cfg,
            rcfg,
            given,
            when,
            looked(cfg, rcfg, given, when, start, looks),
            reason,
            names,
        ) == looked(cfg, rcfg, given, when, start, looks + looks_of(reason, names)),
    decreases names.len(),
{
    if names.len() == 0 {
        assert(looks + looks_of(reason, names) =~= looks);
    } else {
        let one = looks.push((reason, names[0]));
        assert(one.drop_last() =~= looks);
        assert(one + looks_of(reason, names.skip(1)) =~= looks + looks_of(reason, names));
        lemma_names_looked(cfg, rcfg, given, when, start, one, reason, names.skip(1));
    }
}

proof fn lemma_rules_looked(
    cfg: Config,
    rcfg: RemediatorConfig,
    given: Given,
    when: PollView,
    start: Outcome,
    rules: Seq<(Seq<char>, Seq<Seq<char>>)>,
    from: int,
)
    requires
        0 <= from <= rules.len(),
    ensures
        with_rules(
            cfg,
            rcfg,
            given,
            when,
            looked(cfg, rcfg, given, when, start, all_looks(rules.take(from))),
            rules.skip(from),
        ) == looked(cfg, rcfg, given, when, start, all_looks(rules)),
    decreases rules.len() - from,
{
    if from == rules.len() {
        assert(rules.take(from) =~= rules);
        assert(rules.skip(from).len() == 0);
    } else {
        let rest = rules.skip(from);
        assert(rest[0] == rules[from]);
        assert(rest.skip(1) =~= rules.skip(from + 1));
        assert(rules.take(from + 1).drop_last() =~= rules.take(from));
        assert(rules.take(from + 1).last() == rules[from]);
        lemma_names_looked(
            cfg,
            rcfg,
            given,
            when,
            start,
            all_looks(rules.take(from)),
            rules[from].0,
            rules[from].1,
        );
        lemma_rules_looked(cfg, rcfg, given, when, start, rules, from + 1);
    }
}

/// The rule for which a device is first looked at.
spec fn first_reason(looks: Seq<(Seq<char>, Seq<char>)>, n: Seq<char>) -> Option<Seq<char>>
    decreases looks.len(),
{
    if looks.len() == 0 {
        None
    } else {
        match first_reason(looks.drop_last(), n) {
            Some(reason) => Some(reason),
            None => if looks.last().1 == n {
                Some(looks.last().0)
            } else {
                None
            },
        }
    }
}

proof fn lemma_first_append(
    looks: Seq<(Seq<char>, Seq<char>)>,
    reason: Seq<char>,
    names: Seq<Seq<char>>,
    n: Seq<char>,
)
    ensures
        first_reason(looks + looks_of(reason, names), n) == match first_reason(looks, n) {
            Some(first) => Some(first),
            None => if names.contains(n) {
                Some(reason)
            } else {
                None
            },
        },
    decreases names.len(),
{
    let all = looks + looks_of(reason, names);
    if names.len() == 0 {
        assert(all =~= looks);
    } else {
        let rest = names.drop_last();
        lemma_first_append(looks, reason, rest, n);
        assert(all.drop_last() =~= looks + looks_of(reason, rest));
        assert(all.last() == (reason, names.last()));
        if rest.contains(n) {
            let i = choose|i: int| 0 <= i < rest.len() && rest[i] == n;
            assert(names[i] == n);
        } else if names.contains(n) {
            let i = choose|i: int| 0 <= i < names.len() && names[i] == n;
            if i < rest.len() {
                assert(rest[i] == n);
            }
        }
        if names.last() == n {
            assert(names[names.len() - 1] == n);
        }
    }
}

/// Whether the rule at `r` is the first that matches a device.
pub open spec fn first_to_match(given: Given, rules: int, n: Seq<char>, r: int) -> bool {
    &&& 0 <= r < rules
    &&& given.matched(r).contains(n)
    &&& forall|q: int| 0 <= q < r ==> !(#[trigger] given.matched(q)).contains(n)
}

/// Whether some rule matches a device.
pub open spec fn is_matched(given: Given, rules: int, n: Seq<char>) -> bool {
    exists|r: int| 0 <= r < rules && (#[trigger] given.matched(r)).contains(n)
}

proof fn lemma_first_rule(rules: Seq<Rule>, given: Given, n: Seq<char>, upto: int)
    requires
        0 <= upto <= rules.len(),
    ensures
        ({
            let first = first_reason(
                all_looks(matches_by_rule(rules, given).take(upto)),
                n,
            );
            &&& first is Some <==> is_matched(given, upto, n)
            &&& forall|r: int|
                #[trigger] first_to_match(given, upto, n, r) ==> first == Some(rules[r].name@)
        }),
    decreases upto,
{
    let all = matches_by_rule(rules, given);
    if upto == 0 {
        assert(all.take(0) =~= Seq::empty());
    } else {
        let before = all.take(upto - 1);
        lemma_first_rule(rules, given, n, upto - 1);
        assert(all.take(upto).drop_last() =~= before);
        assert(all.take(upto).last() == all[upto - 1]);
        lemma_first_append(all_looks(before), all[upto - 1].0, all[upto - 1].1, n);
        if is_matched(given, upto - 1, n) {
            let r = choose|r: int| 0 <= r < upto - 1 && (#[trigger] given.matched(r)).contains(n);
            assert(is_matched(given, upto, n));
            assert forall|r: int| #[trigger] first_to_match(given, upto, n, r) implies first_reason(
                all_looks(all.take(upto)),
                n,
            ) == Some(rules[r].name@) by {
                let q = choose|q: int|
                    0 <= q < upto - 1 && (#[trigger] given.matched(q)).contains(n);
                if r == upto - 1 {
                    assert(!given.matched(q).contains(n));
                } else {
                    assert(first_to_match(given, upto - 1, n, r));
                }
            }
        } else {
            if given.matched(upto - 1).contains(n) {
                assert(is_matched(given, upto, n));
            } else if is_matched(given, upto, n) {
                let r = choose|r: int| 0 <= r < upto && (#[trigger] given.matched(r)).contains(n);
                assert(r < upto - 1);
                assert(is_matched(given, upto - 1, n));
            }
            assert forall|r: int| #[trigger] first_to_match(given, upto, n, r) implies first_reason(
                all_looks(all.take(upto)),
                n,
            ) == Some(rules[r].name@) by {
                if r < upto - 1 {
                    assert(given.matched(r).contains(n));
                    assert(is_matched(given, upto - 1, n));
                }
            }
        }
    }
}

/// What a poll has come to, told of one device and one rule: `first` is the rule that
/// matched the device first, where one did.
spec fn told(
    cfg: Config,
    rcfg: RemediatorConfig,
    given: Given,
    when: PollView,
    start: Books,
    out: Outcome,
    n: Seq<char>,
    q: Seq<char>,
    first: Option<Seq<char>>,
) -> bool {
    let st = start.state_of(n);
    let known = first is Some && configured(cfg, n);
    let acted = known && may_reboot(st, rcfg, when.now, when.today);
    let own = acted && first == Some(q);
    let key = (n, q);
    &&& out.books.wf()
    &&& out.handled.contains(n) <==> acted
    &&& out.books.state_of(n) == if acted {
        DeviceStateView {
            last_reboot_unix: Some(when.now),
            day: when.today,
            reboots_today: (count_on(st, when.today) + 1) as u32,
        }
    } else {
        st
    }
    &&& counted(out.books.would_reboot_total, key) == counted(start.would_reboot_total, key)
        + one_if(own && rcfg.dry_run)
    &&& counted(out.books.reboots_total, key) == counted(start.reboots_total, key) + one_if(
        own && !rcfg.dry_run && (given.works)(n),
    )
    &&& counted(out.books.reboot_failures_total, key) == counted(start.reboot_failures_total, key)
        + one_if(own && !rcfg.dry_run && !(given.works)(n))
    &&& lookup(out.books.circuit_open, n) == if known {
        Some(count_on(st, when.today) >= rcfg.max_reboots_per_day)
    } else {
        lookup(start.circuit_open, n)
    }
    &&& lookup(out.books.last_reboot_ts, n) == if acted && !rcfg.dry_run && (given.works)(n) {
        Some(when.shown)
    } else {
        lookup(start.last_reboot_ts, n)
    }
}

/// Whether every counter of the books can grow by one.
spec fn roomy(books: Books) -> bool {
    forall|k: CountKey|
        #![trigger counted(books.reboots_total, k)]
        counted(books.reboots_total, k) < u64::MAX && counted(books.would_reboot_total, k)
            < u64::MAX && counted(books.reboot_failures_total, k) < u64::MAX
}

proof fn lemma_told(
    cfg: Config,
    rcfg: RemediatorConfig,
    given: Given,
    when: PollView,
    start: Outcome,
    looks: Seq<(Seq<char>, Seq<char>)>,
    n: Seq<char>,
    q: Seq<char>,
)
    requires
        start.books.wf(),
        start.handled.len() == 0,
        roomy(start.books),
    ensures
        told(
            cfg,
            rcfg,
            given,
            when,
            start.books,
            looked(cfg, rcfg, given, when, start, looks),
            n,
            q,
            first_reason(looks, n),
        ),
    decreases looks.len(),
{
    if looks.len() > 0 {
        let rest = looks.drop_last();
        let (reason, m) = looks.last();
        let before = looked(cfg, rcfg, given, when, start, rest);
        lemma_told(cfg, rcfg, given, when, start, rest, n, q);
        lemma_told(cfg, rcfg, given, when, start, rest, m, reason);
        assert(counted(start.books.reboots_total, (m, reason)) < u64::MAX);
        lemma_look(cfg, rcfg, given, when, before, reason, m, n, (n, q));
        let next = looked(cfg, rcfg, given, when, start, looks);
        if acts(cfg, rcfg, when, before, m) {
            assert(next.handled.last() == m);
            if before.handled.contains(n) {
                let i = choose|i: int| 0 <= i < before.handled.len() && before.handled[i] == n;
                assert(next.handled[i] == n);
            } else if next.handled.contains(n) {
                let i = choose|i: int| 0 <= i < next.handled.len() && next.handled[i] == n;
                if i < before.handled.len() {
                    assert(before.handled[i] == n);
                }
            }
        }
    } else {
        assert(!start.handled.contains(n));
    }
}

/// What a whole poll does, told of any device and any rule. A device is acted on
/// exactly where a rule matches it, it is configured, and its own state at the
/// beginning of the poll allows a reboot; every such device is, whatever is done with
/// the others. A device acted on begins its cooldown and has one more reboot on that
/// day, and it counts once, under the rule that matched it first: as announced in a
/// dry run, else as rebooted or failed. The breaker's flag of every matched device
/// says whether its limit of the day was reached. Nothing else changes.
pub proof fn law_whole_poll(
    cfg: Config,
    rcfg: RemediatorConfig,
    given: Given,
    books: Books,
    now: u64,
    shown: Seq<char>,
    today: Seq<char>,
    n: Seq<char>,
    q: Seq<char>,
    r: int,
)
    requires
        books.wf(),
        books.has_room(),
        first_to_match(given, rcfg.rule@.len() as int, n, r) || !is_matched(
            given,
            rcfg.rule@.len() as int,
            n,
        ),
    ensures
        ({
            let out = polled(cfg, rcfg, given, books, begun(now, shown, today), Seq::empty());
            let st = books.state_of(n);
            let known = is_matched(given, rcfg.rule@.len() as int, n) && configured(cfg, n);
            let acted = known && count_on(st, today) < rcfg.max_reboots_per_day && now >= free_at(
                st,
                rcfg,
            );
            let own = acted && q == rcfg.rule@[r].name@;
            let key = (n, q);
            &&& out.handled.contains(n) <==> acted
            &&& acted ==> {
                let after = out.books.state_of(n);
                &&& after.last_reboot_unix == Some(now)
                &&& after.day == today
                &&& after.reboots_today == count_on(st, today) + 1
            }
            &&& !acted ==> out.books.state_of(n) == st
            &&& counted(out.books.would_reboot_total, key) == counted(books.would_reboot_total, key)
                + one_if(own && rcfg.dry_run)
            &&& counted(out.books.reboots_total, key) == counted(books.reboots_total, key) + one_if(
                own && !rcfg.dry_run && (given.works)(n),
            )
            &&& counted(out.books.reboot_failures_total, key) == counted(
                books.reboot_failures_total,
                key,
            ) + one_if(own && !rcfg.dry_run && !(given.works)(n))
            &&& known ==> lookup(out.books.circuit_open, n) == Some(
                count_on(st, today) >= rcfg.max_reboots_per_day,
            )
            &&& !known ==> lookup(out.books.circuit_open, n) == lookup(books.circuit_open, n)
            &&& lookup(out.books.last_reboot_ts, n) == if acted && !rcfg.dry_run && (given.works)(
                n,
            ) {
                Some(shown)
            } else {
                lookup(books.last_reboot_ts, n)
            }
        }),
{
    let when = begun(now, shown, today);
    let start = Outcome { books, handled: Seq::empty(), reboots: Seq::empty() };
    let rules = matches_by_rule(rcfg.rule@, given);
    law_poll_in_order(cfg, rcfg, given, books, now, shown, today);
    assert(rules.take(0) =~= Seq::empty());
    assert(rules.skip(0) =~= rules);
    lemma_rules_looked(cfg, rcfg, given, when, start, rules, 0);
    assert(rules.take(rules.len() as int) =~= rules);
    lemma_first_rule(rcfg.rule@, given, n, rcfg.rule@.len() as int);
    lemma_roomy(books);
    lemma_told(cfg, rcfg, given, when, start, all_looks(rules), n, q);
}

proof fn lemma_roomy(books: Books)
    requires
        books.wf(),
        books.has_room(),
    ensures
        roomy(books),
{
    assert forall|k: CountKey|
        #![trigger counted(books.reboots_total, k)]
        counted(books.reboots_total, k) < u64::MAX && counted(books.would_reboot_total, k)
            < u64::MAX && counted(books.reboot_failures_total, k) < u64::MAX by {
        crate::tables::lemma_room(books.reboots_total, k, 1);
        crate::tables::lemma_room(books.would_reboot_total, k, 1);
        crate::tables::lemma_room(books.reboot_failures_total, k, 1);
    }
}

proof fn lemma_reboots_looked(
    cfg: Config,
    rcfg: RemediatorConfig,
    given: Given,
    when: PollView,
    start: Outcome,
    looks: Seq<(Seq<char>, Seq<char>)>,
)
    requires
        start.books.wf(),
        start.handled.len() == 0,
        start.reboots.len() == 0,
        roomy(start.books),
    ensures
        ({
            let out = looked(cfg, rcfg, given, when, start, looks);
            &&& out.handled.no_duplicates()
            &&& rcfg.dry_run ==> out.reboots.len() == 0
            &&& !rcfg.dry_run ==> out.reboots.len() == out.handled.len() && forall|k: int|
                0 <= k < out.reboots.len() ==> (#[trigger] out.reboots[k]) < cfg.device@.len()
                    && cfg.device@[out.reboots[k] as int].name@ == out.handled[k]
        }),
    decreases looks.len(),
{
    if looks.len() > 0 {
        let rest = looks.drop_last();
        let (reason, m) = looks.last();
        let before = looked(cfg, rcfg, given, when, start, rest);
        let next = looked(cfg, rcfg, given, when, start, looks);
        lemma_reboots_looked(cfg, rcfg, given, when, start, rest);
        lemma_told(cfg, rcfg, given, when, start, rest, m, reason);
        assert(counted(start.books.reboots_total, (m, reason)) < u64::MAX);
        lemma_look(cfg, rcfg, given, when, before, reason, m, m, (m, reason));
        if !rcfg.dry_run && acts(cfg, rcfg, when, before, m) {
            assert forall|k: int| 0 <= k < next.reboots.len() implies (#[trigger] next.reboots[k])
                < cfg.device@.len() && cfg.device@[next.reboots[k] as int].name@
                == next.handled[k] by {
                if k < before.reboots.len() {
                    assert(next.reboots.drop_last()[k] == before.reboots[k]);
                }
            }
        }
    }
}

/// The reboots that a poll asks for are those of the devices that it acts on, one for
/// each and in that order; a dry run asks for none.
pub proof fn law_reboots_are_of_the_acted_on(
    cfg: Config,
    rcfg: RemediatorConfig,
    given: Given,
    books: Books,
    now: u64,
    shown: Seq<char>,
    today: Seq<char>,
)
    requires
        books.wf(),
        books.has_room(),
    ensures
        ({
            let out = polled(cfg, rcfg, given, books, begun(now, shown, today), Seq::empty());
            &&& out.handled.no_duplicates()
            &&& rcfg.dry_run ==> out.reboots.len() == 0
            &&& !rcfg.dry_run ==> out.reboots.len() == out.handled.len() && forall|k: int|
                0 <= k < out.reboots.len() ==> (#[trigger] out.reboots[k]) < cfg.device@.len()
                    && cfg.device@[out.reboots[k] as int].name@ == out.handled[k]
        }),
{
    let when = begun(now, shown, today);
    let start = Outcome { books, handled: Seq::empty(), reboots: Seq::empty() };
    let rules = matches_by_rule(rcfg.rule@, given);
    law_poll_in_order(cfg, rcfg, given, books, now, shown, today);
    assert(rules.take(0) =~= Seq::empty());
    assert(rules.skip(0) =~= rules);
    lemma_rules_looked(cfg, rcfg, given, when, start, rules, 0);
    lemma_roomy(books);
    lemma_reboots_looked(cfg, rcfg, given, when, start, all_looks(rules));
}

/// A step that has devices left looks at the next one, a step that has none asks the
/// next rule, and a step that has neither ends the poll.
pub proof fn law_step_in_turn(
    cfg: Config,
    rcfg: RemediatorConfig,
    books: Books,
    poll: PollView,
    event: EventView,
)
    requires
        poll.wf(rcfg.rule@.len()),
    ensures
        ({
            let (after, next, action) = stepped(cfg, rcfg, books, poll, event);
            let matched = if poll.awaiting is Matches {
                match event {
                    EventView::Matched(list) => list,
                    _ => Seq::empty(),
                }
            } else {
                poll.matched
            };
            let seen = if poll.awaiting is Matches {
                0
            } else {
                poll.considered as int
            };
            &&& next.now == poll.now && next.shown == poll.shown && next.today == poll.today
            &&& seen < matched.len() ==> {
                &&& next.matched == matched && next.considered == seen + 1
                &&& next.asked == poll.asked && action !is Query && action !is Done
                &&& action == judged(
                    cfg,
                    rcfg,
                    books_with(rcfg, books, poll, event),
                    poll,
                    matched[seen],
                )
            }
            &&& next.awaiting is Reboot <==> action is Reboot
            &&& next.awaiting is Matches <==> action is Query
            &&& next.handled == if action is Reboot || action is WouldReboot {
                poll.handled.push(matched[seen])
            } else {
                poll.handled
            }
            &&& seen >= matched.len() && poll.asked < rcfg.rule@.len() ==> action == (
            Action::Query { rule: poll.asked as usize }) && next.asked == poll.asked + 1
            &&& seen >= matched.len() && poll.asked >= rcfg.rule@.len() ==> action == Action::Done
        }),
{
    let mid = poll_with(poll, event);
    if mid.considered < mid.matched.len() {
        law_device_decided_by_its_own_state(
            cfg,
            rcfg,
            books_with(rcfg, books, poll, event),
            mid,
            mid.matched[mid.considered as int],
        );
    }
}

/// The outcome of a reboot counts once, for the device last looked at and the rule last
/// asked: as a reboot, with its time, where the adapter was rebooted, and as a failure
/// in any other case. Nothing else changes, and without a reboot under way nothing does.
pub proof fn law_reboot_outcome_counts(
    rcfg: RemediatorConfig,
    books: Books,
    poll: PollView,
    event: EventView,
    key: CountKey,
    n: Seq<char>,
)
    requires
        books.wf(),
        books.has_room(),
        poll.wf(rcfg.rule@.len()),
    ensures
        ({
            let after = books_with(rcfg, books, poll, event);
            let due = poll.awaiting is Reboot;
            let name = poll.matched[poll.considered - 1];
            let own = due && key == (name, rcfg.rule@[poll.asked - 1].name@);
            let done = event is Rebooted;
            &&& !due ==> after == books
            &&& counted(after.reboots_total, key) == counted(books.reboots_total, key) + one_if(
                own && done,
            )
            &&& counted(after.reboot_failures_total, key) == counted(
                books.reboot_failures_total,
                key,
            ) + one_if(own && !done)
            &&& lookup(after.last_reboot_ts, n) == if due && done && n == name {
                Some(poll.shown)
            } else {
                lookup(books.last_reboot_ts, n)
            }
            &&& after.would_reboot_total == books.would_reboot_total
            &&& after.devices == books.devices
            &&& after.circuit_open == books.circuit_open
        }),
{
    if poll.awaiting is Reboot {
        let name = poll.matched[poll.considered - 1];
        let own = (name, rcfg.rule@[poll.asked - 1].name@);
        lemma_roomy(books);
        assert(counted(books.reboots_total, own) < u64::MAX);
        lemma_bumped(books.reboots_total, own);
        lemma_bumped(books.reboot_failures_total, own);
        lemma_put(books.last_reboot_ts, name, poll.shown);
    }
}

/// What may be done with a device is decided by the limit of the day and then by the
/// cooldown, which ends so many seconds after the last reboot; an attempt begins the
/// cooldown anew and is one more on its day.
pub proof fn law_decision(st: DeviceStateView, limits: Limits, now: u64, today: Seq<char>)
    ensures
        ({
            let count = count_on(st, today);
            let end = match st.last_reboot_unix {
                Some(last) => last + limits.cooldown_secs * 1_000_000_000,
                None => 0,
            };
            &&& decision(st, limits, now, today) == if count >= limits.max_reboots_per_day {
                Decision::CircuitOpen
            } else if now < end {
                Decision::Cooldown
            } else {
                Decision::Reboot
            }
            &&& spec_cooldown_left(st, limits, now) == if now < end {
                end - now
            } else {
                0
            }
            &&& after_attempt(st, now, today).last_reboot_unix == Some(now)
            &&& after_attempt(st, now, today).day == today
            &&& count < u32::MAX ==> after_attempt(st, now, today).reboots_today == count + 1
        }),
{
}

} // verus!
