//! What holds of a remediator over whole polls, and from one poll to the next.

use super::config::{RemediatorConfig, Rule};
use super::poller::{
    attempts, begun, books_after, books_with, judged, law_poll_ends, law_reboots_the_matched,
    limits_of, poll_with, stepped, with_dry_run, Action, Awaiting, Books, EventView, PollView,
};
use super::state::{after_attempt, cooling, NANOS_PER_SEC};
use crate::config::{device_named, Config};
use crate::tables::{counted, lemma_put};
use vstd::prelude::*;

verus! {

/// What a remediator is given: a poll begins, or something has come of what the
/// last step asked for.
pub enum Input {
    Begin { now: u64, shown: Seq<char>, today: Seq<char> },
    Came(EventView),
}

/// Where a remediator stands: its books, its poll, and what it did last.
pub struct Run {
    pub books: Books,
    pub poll: PollView,
    pub action: Action,
}

/// Where a remediator stands after one more input.
pub open spec fn run_step(cfg: Config, rcfg: RemediatorConfig, run: Run, input: Input) -> Run {
    match input {
        Input::Begin { now, shown, today } => Run {
            books: run.books,
            poll: begun(now, shown, today),
            action: Action::Done,
        },
        Input::Came(event) => {
            let (books, poll, action) = stepped(cfg, rcfg, run.books, run.poll, event);
            Run { books, poll, action }
        },
    }
}

/// Where a remediator stands after `inputs`.
pub open spec fn ran(cfg: Config, rcfg: RemediatorConfig, run: Run, inputs: Seq<Input>) -> Run
    decreases inputs.len(),
{
    if inputs.len() == 0 {
        run
    } else {
        run_step(cfg, rcfg, ran(cfg, rcfg, run, inputs.drop_last()), inputs.last())
    }
}

impl Run {
    /// Whether the last step attempted to reboot `name`.
    pub open spec fn attempted(self, name: Seq<char>) -> bool {
        attempts(self.action) && self.poll.device() == name
    }
}

/// The devices that an event brings.
pub open spec fn matches_of(event: EventView) -> Seq<Seq<char>> {
    match event {
        EventView::Matched(list) => list,
        _ => Seq::empty(),
    }
}

/// Whether a dry run and a live run are given the same: polls begin at the same
/// moments, and queries are answered alike. What comes of a reboot is left
/// open.
pub open spec fn same_input(dry: Input, live: Input) -> bool {
    match (dry, live) {
        (Input::Came(a), Input::Came(b)) => matches_of(a) == matches_of(b),
        (
            Input::Begin { now, shown, today },
            Input::Begin { now: live_now, shown: live_shown, today: live_today },
        ) => now == live_now && shown == live_shown && today == live_today,
        _ => false,
    }
}

/// Whether a dry run stands where a live run does: the same cooldowns, daily
/// counts and breaker flags, and the same place in the same poll, save that the
/// live run may wait for a reboot.
pub open spec fn alike(dry: Run, live: Run) -> bool {
    &&& dry.books.devices == live.books.devices
    &&& dry.books.circuit_open == live.books.circuit_open
    &&& dry.poll.now == live.poll.now
    &&& dry.poll.shown == live.poll.shown
    &&& dry.poll.today == live.poll.today
    &&& dry.poll.asked == live.poll.asked
    &&& dry.poll.matched == live.poll.matched
    &&& dry.poll.considered == live.poll.considered
    &&& dry.poll.handled == live.poll.handled
    &&& dry.poll.awaiting is Matches == live.poll.awaiting is Matches
    &&& dry.poll.awaiting !is Reboot
    &&& attempts(dry.action) == attempts(live.action)
}

/// A dry run and a live run that stand alike and are given the same stand alike
/// after the step, and the one acts on a device exactly where the other does.
pub proof fn law_dry_run_same_cadence(
    cfg: Config,
    rcfg: RemediatorConfig,
    dry: Run,
    live: Run,
    dry_input: Input,
    live_input: Input,
)
    requires
        alike(dry, live),
        same_input(dry_input, live_input),
    ensures
        alike(
            run_step(cfg, with_dry_run(rcfg, true), dry, dry_input),
            run_step(cfg, with_dry_run(rcfg, false), live, live_input),
        ),
{
}

/// A dry run acts on the same devices at the same moments as a live run, however
/// many polls they take: the cooldowns, the daily counts and the breaker's flags
/// come out the same.
pub proof fn law_dry_run_same_run(
    cfg: Config,
    rcfg: RemediatorConfig,
    start: Run,
    dry_inputs: Seq<Input>,
    live_inputs: Seq<Input>,
)
    requires
        start.poll.awaiting !is Reboot,
        dry_inputs.len() == live_inputs.len(),
        forall|i: int|
            0 <= i < dry_inputs.len() ==> same_input(
                #[trigger] dry_inputs[i],
                #[trigger] live_inputs[i],
            ),
    ensures
        alike(
            ran(cfg, with_dry_run(rcfg, true), start, dry_inputs),
            ran(cfg, with_dry_run(rcfg, false), start, live_inputs),
        ),
    decreases dry_inputs.len(),
{
    if dry_inputs.len() > 0 {
        let dry = dry_inputs.drop_last();
        let live = live_inputs.drop_last();
        assert forall|i: int| 0 <= i < dry.len() implies same_input(
            #[trigger] dry[i],
            #[trigger] live[i],
        ) by {
            assert(same_input(dry_inputs[i], live_inputs[i]));
        }
        law_dry_run_same_run(cfg, rcfg, start, dry, live);
        let n = dry_inputs.len() - 1;
        assert(same_input(dry_inputs[n], live_inputs[n]));
        law_dry_run_same_cadence(
            cfg,
            rcfg,
            ran(cfg, with_dry_run(rcfg, true), start, dry),
            ran(cfg, with_dry_run(rcfg, false), start, live),
            dry_inputs.last(),
            live_inputs.last(),
        );
    }
}

/// A step keeps one row per key, and leaves what is remembered of a device as it
/// was unless it attempts to reboot that device.
pub proof fn law_untouched_unless_attempted(
    cfg: Config,
    rcfg: RemediatorConfig,
    run: Run,
    input: Input,
    name: Seq<char>,
)
    requires
        run.books.wf(),
    ensures
        run_step(cfg, rcfg, run, input).books.wf(),
        !run_step(cfg, rcfg, run, input).attempted(name) ==> run_step(
            cfg,
            rcfg,
            run,
            input,
        ).books.state_of(name) == run.books.state_of(name),
{
    if let Input::Came(event) = input {
        let books = books_with(rcfg, run.books, run.poll, event);
        let poll = poll_with(run.poll, event);
        lemma_books_with(rcfg, run.books, run.poll, event);
        if poll.considered < poll.matched.len() {
            let device = poll.matched[poll.considered as int];
            let action = judged(cfg, rcfg, books, poll, device);
            let reason = rcfg.rule@[poll.asked - 1].name@;
            lemma_books_after(books, poll, action, device, reason);
        }
    }
}

proof fn lemma_books_with(
    rcfg: RemediatorConfig,
    books: Books,
    poll: PollView,
    event: EventView,
)
    requires
        books.wf(),
    ensures
        books_with(rcfg, books, poll, event).wf(),
        books_with(rcfg, books, poll, event).devices == books.devices,
{
    let key = (poll.device(), rcfg.rule@[poll.asked - 1].name@);
    lemma_put(books.reboots_total, key, (counted(books.reboots_total, key) + 1) as u64);
    lemma_put(
        books.reboot_failures_total,
        key,
        (counted(books.reboot_failures_total, key) + 1) as u64,
    );
    lemma_put(books.last_reboot_ts, poll.device(), poll.shown);
}

proof fn lemma_books_after(
    books: Books,
    poll: PollView,
    action: Action,
    name: Seq<char>,
    reason: Seq<char>,
)
    requires
        books.wf(),
    ensures
        books_after(books, poll, action, name, reason).wf(),
        attempts(action) ==> books_after(books, poll, action, name, reason).state_of(name)
            == after_attempt(books.state_of(name), poll.now, poll.today),
        forall|other: Seq<char>|
            !(attempts(action) && other == name) ==> #[trigger] books_after(
                books,
                poll,
                action,
                name,
                reason,
            ).state_of(other) == books.state_of(other),
{
    let key = (name, reason);
    lemma_put(books.would_reboot_total, key, (counted(books.would_reboot_total, key) + 1) as u64);
    lemma_put(books.circuit_open, name, true);
    lemma_put(books.circuit_open, name, false);
    lemma_put(books.devices, name, after_attempt(books.state_of(name), poll.now, poll.today));
}

/// After an attempt on a device, nothing that comes within the cooldown makes the
/// remediator attempt it again: not the rest of that poll, nor any poll that begins
/// within the cooldown, for whatever rule and on whatever day.
pub proof fn law_cooldown_spans_polls(
    cfg: Config,
    rcfg: RemediatorConfig,
    run: Run,
    input: Input,
    inputs: Seq<Input>,
    name: Seq<char>,
)
    requires
        run.books.wf(),
        run_step(cfg, rcfg, run, input).attempted(name),
        inputs.len() > 0,
        forall|i: int|
            0 <= i < inputs.len() ==> match #[trigger] inputs[i] {
                Input::Begin { now, .. } => now < run.poll.now + rcfg.cooldown_secs * NANOS_PER_SEC,
                Input::Came(_) => true,
            },
    ensures
        !ran(cfg, rcfg, run_step(cfg, rcfg, run, input), inputs).attempted(name),
{
    let start = run_step(cfg, rcfg, run, input);
    law_untouched_unless_attempted(cfg, rcfg, run, input, name);
    lemma_attempt_kept(cfg, rcfg, run, input, name);
    lemma_cooling(cfg, rcfg, start, inputs, name, run.poll.now);
}

proof fn lemma_attempt_kept(
    cfg: Config,
    rcfg: RemediatorConfig,
    run: Run,
    input: Input,
    name: Seq<char>,
)
    requires
        run.books.wf(),
        run_step(cfg, rcfg, run, input).attempted(name),
    ensures
        ({
            let after = run_step(cfg, rcfg, run, input);
            &&& after.poll.handled.contains(name)
            &&& after.books.state_of(name).last_reboot_unix == Some(run.poll.now)
        }),
{
    let event = input->Came_0;
    let books = books_with(rcfg, run.books, run.poll, event);
    let poll = poll_with(run.poll, event);
    lemma_books_with(rcfg, run.books, run.poll, event);
    let action = judged(cfg, rcfg, books, poll, name);
    let reason = rcfg.rule@[poll.asked - 1].name@;
    lemma_books_after(books, poll, action, name, reason);
    let after = run_step(cfg, rcfg, run, input);
    assert(after.poll.handled.last() == name);
}

/// Whether a device that was attempted at `at` is held back: by its cooldown,
/// and in a poll that has acted on it by that.
spec fn held_back(rcfg: RemediatorConfig, run: Run, name: Seq<char>, at: u64) -> bool {
    &&& run.books.wf()
    &&& run.books.state_of(name).last_reboot_unix == Some(at)
    &&& run.poll.handled.contains(name) || run.poll.now < at + rcfg.cooldown_secs * NANOS_PER_SEC
}

proof fn lemma_cooling(
    cfg: Config,
    rcfg: RemediatorConfig,
    start: Run,
    inputs: Seq<Input>,
    name: Seq<char>,
    at: u64,
)
    requires
        held_back(rcfg, start, name, at),
        forall|i: int|
            0 <= i < inputs.len() ==> match #[trigger] inputs[i] {
                Input::Begin { now, .. } => now < at + rcfg.cooldown_secs * NANOS_PER_SEC,
                Input::Came(_) => true,
            },
    ensures
        held_back(rcfg, ran(cfg, rcfg, start, inputs), name, at),
        inputs.len() > 0 ==> !ran(cfg, rcfg, start, inputs).attempted(name),
    decreases inputs.len(),
{
    if inputs.len() > 0 {
        let rest = inputs.drop_last();
        assert forall|i: int| 0 <= i < rest.len() implies match #[trigger] rest[i] {
            Input::Begin { now, .. } => now < at + rcfg.cooldown_secs * NANOS_PER_SEC,
            Input::Came(_) => true,
        } by {
            assert(rest[i] == inputs[i]);
        }
        lemma_cooling(cfg, rcfg, start, rest, name, at);
        let before = ran(cfg, rcfg, start, rest);
        let input = inputs[inputs.len() - 1];
        lemma_held_step(cfg, rcfg, before, input, name, at);
    }
}

proof fn lemma_held_step(
    cfg: Config,
    rcfg: RemediatorConfig,
    run: Run,
    input: Input,
    name: Seq<char>,
    at: u64,
)
    requires
        held_back(rcfg, run, name, at),
        input matches Input::Begin { now, .. } ==> now < at + rcfg.cooldown_secs * NANOS_PER_SEC,
    ensures
        !run_step(cfg, rcfg, run, input).attempted(name),
        held_back(rcfg, run_step(cfg, rcfg, run, input), name, at),
{
    law_untouched_unless_attempted(cfg, rcfg, run, input, name);
    if let Input::Came(event) = input {
        let books = books_with(rcfg, run.books, run.poll, event);
        let poll = poll_with(run.poll, event);
        lemma_books_with(rcfg, run.books, run.poll, event);
        assert(books.state_of(name) == run.books.state_of(name));
        if !poll.handled.contains(name) {
            assert(cooling(books.state_of(name), limits_of(rcfg), poll.now));
        }
        assert(!attempts(judged(cfg, rcfg, books, poll, name)));
        let after = run_step(cfg, rcfg, run, input);
        if poll.handled.contains(name) {
            let i = choose|i: int| 0 <= i < poll.handled.len() && poll.handled[i] == name;
            assert(after.poll.handled[i] == name);
        }
        if poll.considered < poll.matched.len() {
            assert(after.poll.device() == poll.matched[poll.considered as int]);
        } else {
            assert(!attempts(after.action));
        }
    } else {
        assert(!attempts(run_step(cfg, rcfg, run, input).action));
    }
}

/// What is given to a poll: for each rule the devices that it matches, or
/// nothing where its query fails, and for each device whether its reboot works.
pub struct Given {
    pub answers: Seq<Option<Seq<Seq<char>>>>,
    pub works: spec_fn(Seq<char>) -> bool,
}

impl Given {
    /// What comes of what the last step of a poll asked for.
    pub open spec fn event_for(self, poll: PollView) -> EventView {
        match poll.awaiting {
            Awaiting::Nothing => EventView::Proceed,
            Awaiting::Matches => match self.answers[poll.asked - 1] {
                Some(list) => EventView::Matched(list),
                None => EventView::QueryFailed,
            },
            Awaiting::Reboot => if (self.works)(poll.device()) {
                EventView::Rebooted
            } else {
                EventView::RebootFailed
            },
        }
    }

    /// What the rule at position `i` matches: nothing, where its query fails.
    pub open spec fn matched(self, i: int) -> Seq<Seq<char>> {
        match self.answers[i] {
            Some(list) => list,
            None => Seq::empty(),
        }
    }
}

/// What a poll comes to: the books after it, the devices it has acted on, and
/// the reboots it has asked for, by their positions in the configuration.
#[verifier::ext_equal]
pub struct Outcome {
    pub books: Books,
    pub handled: Seq<Seq<char>>,
    pub reboots: Seq<usize>,
}

/// What a poll comes to from where it stands, with `reboots` asked for already:
/// it is stepped until it is done.
pub open spec fn polled(
    cfg: Config,
    rcfg: RemediatorConfig,
    given: Given,
    books: Books,
    poll: PollView,
    reboots: Seq<usize>,
) -> Outcome
    decreases
            rcfg.rule@.len() - poll.asked,
            poll.answers_owed(),
            poll.matched.len() - poll.considered,
{
    let event = given.event_for(poll);
    let (after, next, action) = stepped(cfg, rcfg, books, poll, event);
    if !poll.wf(rcfg.rule@.len()) || action is Done {
        Outcome { books: after, handled: next.handled, reboots }
    } else {
        proof {
            law_poll_ends(cfg, rcfg, books, poll, event);
        }
        let asked_for = match action {
            Action::Reboot { device } => reboots.push(device),
            _ => reboots,
        };
        polled(cfg, rcfg, given, after, next, asked_for)
    }
}

/// What it comes to that the rule `reason` matches `name`.
pub open spec fn with_device(
    cfg: Config,
    rcfg: RemediatorConfig,
    given: Given,
    when: PollView,
    so_far: Outcome,
    reason: Seq<char>,
    name: Seq<char>,
) -> Outcome {
    let poll = PollView { handled: so_far.handled, ..when };
    let action = judged(cfg, rcfg, so_far.books, poll, name);
    let books = books_after(so_far.books, poll, action, name, reason);
    Outcome {
        books: if action !is Reboot {
            books
        } else if (given.works)(name) {
            books.with_reboot(name, reason, when.shown)
        } else {
            books.with_failure(name, reason)
        },
        handled: if attempts(action) {
            so_far.handled.push(name)
        } else {
            so_far.handled
        },
        reboots: match action {
            Action::Reboot { device } => so_far.reboots.push(device),
            _ => so_far.reboots,
        },
    }
}

/// What it comes to that the rule `reason` matches `names`, one after the other.
pub open spec fn with_names(
    cfg: Config,
    rcfg: RemediatorConfig,
    given: Given,
    when: PollView,
    so_far: Outcome,
    reason: Seq<char>,
    names: Seq<Seq<char>>,
) -> Outcome
    decreases names.len(),
{
    if names.len() == 0 {
        so_far
    } else {
        let next = with_device(cfg, rcfg, given, when, so_far, reason, names[0]);
        with_names(cfg, rcfg, given, when, next, reason, names.skip(1))
    }
}

/// What it comes to that rules with these reasons match these devices, one after
/// the other.
pub open spec fn with_rules(
    cfg: Config,
    rcfg: RemediatorConfig,
    given: Given,
    when: PollView,
    so_far: Outcome,
    rules: Seq<(Seq<char>, Seq<Seq<char>>)>,
) -> Outcome
    decreases rules.len(),
{
    if rules.len() == 0 {
        so_far
    } else {
        let next = with_names(cfg, rcfg, given, when, so_far, rules[0].0, rules[0].1);
        with_rules(cfg, rcfg, given, when, next, rules.skip(1))
    }
}

/// The rules by their names, each with what it matches.
pub open spec fn matches_by_rule(rules: Seq<Rule>, given: Given) -> Seq<(Seq<char>, Seq<Seq<char>>)> {
    Seq::new(rules.len(), |i: int| (rules[i].name@, given.matched(i)))
}

/// What a poll comes to from where it stands, rule by rule and device by device.
spec fn to_come(
    cfg: Config,
    rcfg: RemediatorConfig,
    given: Given,
    books: Books,
    poll: PollView,
    reboots: Seq<usize>,
) -> Outcome {
    let event = given.event_for(poll);
    let next = poll_with(poll, event);
    let so_far = Outcome {
        books: books_with(rcfg, books, poll, event),
        handled: next.handled,
        reboots,
    };
    let reason = rcfg.rule@[next.asked - 1].name@;
    with_rules(
        cfg,
        rcfg,
        given,
        next,
        with_names(
            cfg,
            rcfg,
            given,
            next,
            so_far,
            reason,
            next.matched.skip(next.considered as int),
        ),
        matches_by_rule(rcfg.rule@, given).skip(next.asked as int),
    )
}

/// What a poll comes to depends on its moment and day alone, not on how far
/// another has come.
proof fn lemma_when(
    cfg: Config,
    rcfg: RemediatorConfig,
    given: Given,
    a: PollView,
    b: PollView,
    so_far: Outcome,
    reason: Seq<char>,
    names: Seq<Seq<char>>,
)
    requires
        a.now == b.now,
        a.shown == b.shown,
        a.today == b.today,
    ensures
        with_names(cfg, rcfg, given, a, so_far, reason, names) == with_names(
            cfg,
            rcfg,
            given,
            b,
            so_far,
            reason,
            names,
        ),
    decreases names.len(),
{
    if names.len() > 0 {
        let next = with_device(cfg, rcfg, given, a, so_far, reason, names[0]);
        assert(next == with_device(cfg, rcfg, given, b, so_far, reason, names[0]));
        lemma_when(cfg, rcfg, given, a, b, next, reason, names.skip(1));
    }
}

proof fn lemma_when_rules(
    cfg: Config,
    rcfg: RemediatorConfig,
    given: Given,
    a: PollView,
    b: PollView,
    so_far: Outcome,
    rules: Seq<(Seq<char>, Seq<Seq<char>>)>,
)
    requires
        a.now == b.now,
        a.shown == b.shown,
        a.today == b.today,
    ensures
        with_rules(cfg, rcfg, given, a, so_far, rules) == with_rules(
            cfg,
            rcfg,
            given,
            b,
            so_far,
            rules,
        ),
    decreases rules.len(),
{
    if rules.len() > 0 {
        lemma_when(cfg, rcfg, given, a, b, so_far, rules[0].0, rules[0].1);
        let next = with_names(cfg, rcfg, given, a, so_far, rules[0].0, rules[0].1);
        lemma_when_rules(cfg, rcfg, given, a, b, next, rules.skip(1));
    }
}

proof fn lemma_polled(
    cfg: Config,
    rcfg: RemediatorConfig,
    given: Given,
    books: Books,
    poll: PollView,
    reboots: Seq<usize>,
)
    requires
        poll.wf(rcfg.rule@.len()),
    ensures
        polled(cfg, rcfg, given, books, poll, reboots) == to_come(
            cfg,
            rcfg,
            given,
            books,
            poll,
            reboots,
        ),
    decreases
            rcfg.rule@.len() - poll.asked,
            poll.answers_owed(),
            poll.matched.len() - poll.considered,
{
    let event = given.event_for(poll);
    let (after, next, action) = stepped(cfg, rcfg, books, poll, event);
    let mid = poll_with(poll, event);
    let mid_books = books_with(rcfg, books, poll, event);
    let left = mid.matched.skip(mid.considered as int);
    let rules = matches_by_rule(rcfg.rule@, given).skip(mid.asked as int);
    let so_far = Outcome { books: mid_books, handled: mid.handled, reboots };
    let reason = rcfg.rule@[mid.asked - 1].name@;
    if action is Done {
        assert(left.len() == 0);
        assert(rules.len() == 0);
    } else {
        law_poll_ends(cfg, rcfg, books, poll, event);
        let asked_for = match action {
            Action::Reboot { device } => reboots.push(device),
            _ => reboots,
        };
        lemma_polled(cfg, rcfg, given, after, next, asked_for);
        let then = poll_with(next, given.event_for(next));
        if mid.considered < mid.matched.len() {
            let name = mid.matched[mid.considered as int];
            assert(left[0] == name);
            assert(left.skip(1) =~= then.matched.skip(then.considered as int));
            let stepped_to = with_device(cfg, rcfg, given, mid, so_far, reason, name);
            assert(PollView { handled: so_far.handled, ..mid } == mid);
            assert(next.device() == name);
            assert(stepped_to == (Outcome {
                books: books_with(rcfg, after, next, given.event_for(next)),
                handled: then.handled,
                reboots: asked_for,
            }));
            lemma_when(cfg, rcfg, given, mid, then, stepped_to, reason, left.skip(1));
            let done = with_names(cfg, rcfg, given, mid, stepped_to, reason, left.skip(1));
            lemma_when_rules(cfg, rcfg, given, mid, then, done, rules);
        } else {
            assert(left.len() == 0);
            assert(rules[0] == (rcfg.rule@[mid.asked as int].name@, given.matched(mid.asked as int)));
            assert(rules.skip(1) =~= matches_by_rule(rcfg.rule@, given).skip(then.asked as int));
            assert(then.matched == given.matched(mid.asked as int));
            assert(then.matched.skip(0) =~= then.matched);
            let entry = rules[0];
            lemma_when(cfg, rcfg, given, mid, then, so_far, entry.0, entry.1);
            let done = with_names(cfg, rcfg, given, mid, so_far, entry.0, entry.1);
            lemma_when_rules(cfg, rcfg, given, mid, then, done, rules.skip(1));
        }
    }
}

/// A whole poll asks its rules in order, and acts for each on the devices that it
/// matches in order: what the steps come to is what the devices come to, one
/// after the other.
pub proof fn law_poll_in_order(
    cfg: Config,
    rcfg: RemediatorConfig,
    given: Given,
    books: Books,
    now: u64,
    shown: Seq<char>,
    today: Seq<char>,
)
    ensures
        polled(cfg, rcfg, given, books, begun(now, shown, today), Seq::empty()) == with_rules(
            cfg,
            rcfg,
            given,
            begun(now, shown, today),
            Outcome { books, handled: Seq::empty(), reboots: Seq::empty() },
            matches_by_rule(rcfg.rule@, given),
        ),
{
    let poll = begun(now, shown, today);
    lemma_polled(cfg, rcfg, given, books, poll, Seq::empty());
    assert(poll_with(poll, given.event_for(poll)) == poll);
    assert(poll.matched.skip(0) =~= poll.matched);
    let all = matches_by_rule(rcfg.rule@, given);
    assert(all.skip(0) =~= all);
}

/// Whether two configurations differ in their rules alone.
pub open spec fn same_but_rules(a: RemediatorConfig, b: RemediatorConfig) -> bool {
    &&& a.cooldown_secs == b.cooldown_secs
    &&& a.max_reboots_per_day == b.max_reboots_per_day
    &&& a.dry_run == b.dry_run
}

proof fn lemma_same_names(
    cfg: Config,
    a: RemediatorConfig,
    b: RemediatorConfig,
    given: Given,
    other: Given,
    when: PollView,
    so_far: Outcome,
    reason: Seq<char>,
    names: Seq<Seq<char>>,
)
    requires
        same_but_rules(a, b),
        given.works == other.works,
    ensures
        with_names(cfg, a, given, when, so_far, reason, names) == with_names(
            cfg,
            b,
            other,
            when,
            so_far,
            reason,
            names,
        ),
    decreases names.len(),
{
    if names.len() > 0 {
        let next = with_device(cfg, a, given, when, so_far, reason, names[0]);
        assert(next == with_device(cfg, b, other, when, so_far, reason, names[0]));
        lemma_same_names(cfg, a, b, given, other, when, next, reason, names.skip(1));
    }
}

proof fn lemma_same_rules(
    cfg: Config,
    a: RemediatorConfig,
    b: RemediatorConfig,
    given: Given,
    other: Given,
    when: PollView,
    so_far: Outcome,
    rules: Seq<(Seq<char>, Seq<Seq<char>>)>,
)
    requires
        same_but_rules(a, b),
        given.works == other.works,
    ensures
        with_rules(cfg, a, given, when, so_far, rules) == with_rules(
            cfg,
            b,
            other,
            when,
            so_far,
            rules,
        ),
    decreases rules.len(),
{
    if rules.len() > 0 {
        lemma_same_names(cfg, a, b, given, other, when, so_far, rules[0].0, rules[0].1);
        let next = with_names(cfg, a, given, when, so_far, rules[0].0, rules[0].1);
        lemma_same_rules(cfg, a, b, given, other, when, next, rules.skip(1));
    }
}

proof fn lemma_silent_rule(
    cfg: Config,
    rcfg: RemediatorConfig,
    given: Given,
    when: PollView,
    so_far: Outcome,
    rules: Seq<(Seq<char>, Seq<Seq<char>>)>,
    r: int,
)
    requires
        0 <= r < rules.len(),
        rules[r].1.len() == 0,
    ensures
        with_rules(cfg, rcfg, given, when, so_far, rules) == with_rules(
            cfg,
            rcfg,
            given,
            when,
            so_far,
            rules.remove(r),
        ),
    decreases rules.len(),
{
    if r == 0 {
        assert(rules.remove(0) =~= rules.skip(1));
    } else {
        let next = with_names(cfg, rcfg, given, when, so_far, rules[0].0, rules[0].1);
        lemma_silent_rule(cfg, rcfg, given, when, next, rules.skip(1), r - 1);
        assert(rules.remove(r).skip(1) =~= rules.skip(1).remove(r - 1));
        assert(rules.remove(r)[0] == rules[0]);
    }
}

/// A poll in which the query of the rule at `r` fails comes to what it comes to
/// where that rule is not configured: the same books, the same devices acted on
/// and the same reboots. All other rules are asked all the same.
pub proof fn law_failed_query_as_if_no_rule(
    cfg: Config,
    rcfg: RemediatorConfig,
    without: RemediatorConfig,
    given: Given,
    books: Books,
    now: u64,
    shown: Seq<char>,
    today: Seq<char>,
    r: int,
)
    requires
        given.answers.len() == rcfg.rule@.len(),
        0 <= r < rcfg.rule@.len(),
        given.answers[r] is None,
        same_but_rules(rcfg, without),
        without.rule@ == rcfg.rule@.remove(r),
    ensures
        polled(cfg, rcfg, given, books, begun(now, shown, today), Seq::empty()) == polled(
            cfg,
            without,
            Given { answers: given.answers.remove(r), works: given.works },
            books,
            begun(now, shown, today),
            Seq::empty(),
        ),
{
    let poll = begun(now, shown, today);
    let other = Given { answers: given.answers.remove(r), works: given.works };
    let start = Outcome { books, handled: Seq::empty(), reboots: Seq::empty() };
    let all = matches_by_rule(rcfg.rule@, given);
    law_poll_in_order(cfg, rcfg, given, books, now, shown, today);
    law_poll_in_order(cfg, without, other, books, now, shown, today);
    lemma_silent_rule(cfg, rcfg, given, poll, start, all, r);
    assert(all.remove(r) =~= matches_by_rule(without.rule@, other));
    lemma_same_rules(cfg, rcfg, without, given, other, poll, start, all.remove(r));
}

/// The names that the configuration has a device for, in order.
pub open spec fn known(cfg: Config, names: Seq<Seq<char>>) -> Seq<Seq<char>>
    decreases names.len(),
{
    if names.len() == 0 {
        Seq::empty()
    } else if device_named(cfg.device@, names[0]) is Some {
        seq![names[0]] + known(cfg, names.skip(1))
    } else {
        known(cfg, names.skip(1))
    }
}

/// The answers without the names that the configuration has no device for.
pub open spec fn known_only(cfg: Config, given: Given) -> Given {
    Given {
        answers: given.answers.map_values(
            |answer: Option<Seq<Seq<char>>>|
                match answer {
                    Some(names) => Some(known(cfg, names)),
                    None => None,
                },
        ),
        works: given.works,
    }
}

proof fn lemma_known(
    cfg: Config,
    rcfg: RemediatorConfig,
    given: Given,
    when: PollView,
    so_far: Outcome,
    reason: Seq<char>,
    names: Seq<Seq<char>>,
)
    ensures
        with_names(cfg, rcfg, given, when, so_far, reason, names) == with_names(
            cfg,
            rcfg,
            given,
            when,
            so_far,
            reason,
            known(cfg, names),
        ),
    decreases names.len(),
{
    if names.len() > 0 {
        let next = with_device(cfg, rcfg, given, when, so_far, reason, names[0]);
        lemma_known(cfg, rcfg, given, when, next, reason, names.skip(1));
        if device_named(cfg.device@, names[0]) is Some {
            let kept = known(cfg, names);
            assert(kept[0] == names[0]);
            assert(kept.skip(1) =~= known(cfg, names.skip(1)));
        } else {
            assert(next == so_far);
        }
    }
}

proof fn lemma_known_rules(
    cfg: Config,
    rcfg: RemediatorConfig,
    given: Given,
    when: PollView,
    so_far: Outcome,
    rules: Seq<(Seq<char>, Seq<Seq<char>>)>,
)
    ensures
        with_rules(cfg, rcfg, given, when, so_far, rules) == with_rules(
            cfg,
            rcfg,
            given,
            when,
            so_far,
            rules.map_values(|rule: (Seq<char>, Seq<Seq<char>>)| (rule.0, known(cfg, rule.1))),
        ),
    decreases rules.len(),
{
    let f = |rule: (Seq<char>, Seq<Seq<char>>)| (rule.0, known(cfg, rule.1));
    if rules.len() > 0 {
        lemma_known(cfg, rcfg, given, when, so_far, rules[0].0, rules[0].1);
        let next = with_names(cfg, rcfg, given, when, so_far, rules[0].0, rules[0].1);
        lemma_known_rules(cfg, rcfg, given, when, next, rules.skip(1));
        assert(rules.map_values(f)[0] == f(rules[0]));
        assert(rules.map_values(f).skip(1) =~= rules.skip(1).map_values(f));
    }
}

/// A poll whose answers name devices that are not configured comes to what it
/// comes to where those names are left out of the answers: the same books, the
/// same devices acted on and the same reboots.
pub proof fn law_unknown_as_if_not_named(
    cfg: Config,
    rcfg: RemediatorConfig,
    given: Given,
    books: Books,
    now: u64,
    shown: Seq<char>,
    today: Seq<char>,
)
    requires
        given.answers.len() == rcfg.rule@.len(),
    ensures
        polled(cfg, rcfg, given, books, begun(now, shown, today), Seq::empty()) == polled(
            cfg,
            rcfg,
            known_only(cfg, given),
            books,
            begun(now, shown, today),
            Seq::empty(),
        ),
{
    let poll = begun(now, shown, today);
    let other = known_only(cfg, given);
    let start = Outcome { books, handled: Seq::empty(), reboots: Seq::empty() };
    let f = |rule: (Seq<char>, Seq<Seq<char>>)| (rule.0, known(cfg, rule.1));
    let all = matches_by_rule(rcfg.rule@, given);
    law_poll_in_order(cfg, rcfg, given, books, now, shown, today);
    law_poll_in_order(cfg, rcfg, other, books, now, shown, today);
    lemma_known_rules(cfg, rcfg, given, poll, start, all);
    assert(all.map_values(f) =~= matches_by_rule(rcfg.rule@, other)) by {
        assert forall|i: int| 0 <= i < all.len() implies #[trigger] all.map_values(f)[i]
            == matches_by_rule(rcfg.rule@, other)[i] by {
            assert(all.map_values(f)[i] == f(all[i]));
        }
    }
    lemma_same_rules(cfg, rcfg, rcfg, given, other, poll, start, all.map_values(f));
}

/// Whether every reboot asked for is that of a configured device, and one that
/// the poll has acted on.
pub open spec fn reboots_meant(cfg: Config, outcome: Outcome) -> bool {
    forall|i: int|
        0 <= i < outcome.reboots.len() ==> {
            let device = #[trigger] outcome.reboots[i];
            &&& device < cfg.device@.len()
            &&& outcome.handled.contains(cfg.device@[device as int].name@)
        }
}

proof fn lemma_reboots_names(
    cfg: Config,
    rcfg: RemediatorConfig,
    given: Given,
    when: PollView,
    so_far: Outcome,
    reason: Seq<char>,
    names: Seq<Seq<char>>,
)
    requires
        reboots_meant(cfg, so_far),
    ensures
        reboots_meant(cfg, with_names(cfg, rcfg, given, when, so_far, reason, names)),
    decreases names.len(),
{
    if names.len() > 0 {
        let name = names[0];
        let next = with_device(cfg, rcfg, given, when, so_far, reason, name);
        let poll = PollView { handled: so_far.handled, ..when };
        if judged(cfg, rcfg, so_far.books, poll, name) is Reboot {
            law_reboots_the_matched(cfg, rcfg, so_far.books, poll, name);
            assert(next.handled.last() == name);
        }
        assert forall|i: int| 0 <= i < next.reboots.len() implies {
            let device = #[trigger] next.reboots[i];
            &&& device < cfg.device@.len()
            &&& next.handled.contains(cfg.device@[device as int].name@)
        } by {
            if i < so_far.reboots.len() {
                let device = so_far.reboots[i];
                assert(next.reboots[i] == device);
                let own = cfg.device@[device as int].name@;
                let k = choose|k: int| 0 <= k < so_far.handled.len() && so_far.handled[k] == own;
                assert(next.handled[k] == own);
            }
        }
        lemma_reboots_names(cfg, rcfg, given, when, next, reason, names.skip(1));
    }
}

proof fn lemma_reboots_rules(
    cfg: Config,
    rcfg: RemediatorConfig,
    given: Given,
    when: PollView,
    so_far: Outcome,
    rules: Seq<(Seq<char>, Seq<Seq<char>>)>,
)
    requires
        reboots_meant(cfg, so_far),
    ensures
        reboots_meant(cfg, with_rules(cfg, rcfg, given, when, so_far, rules)),
    decreases rules.len(),
{
    if rules.len() > 0 {
        lemma_reboots_names(cfg, rcfg, given, when, so_far, rules[0].0, rules[0].1);
        let next = with_names(cfg, rcfg, given, when, so_far, rules[0].0, rules[0].1);
        lemma_reboots_rules(cfg, rcfg, given, when, next, rules.skip(1));
    }
}

/// Whatever the queries answer, a poll reboots configured devices only, each
/// under the name that a rule matched.
pub proof fn law_poll_reboots_configured(
    cfg: Config,
    rcfg: RemediatorConfig,
    given: Given,
    books: Books,
    now: u64,
    shown: Seq<char>,
    today: Seq<char>,
)
    ensures
        reboots_meant(
            cfg,
            polled(cfg, rcfg, given, books, begun(now, shown, today), Seq::empty()),
        ),
{
    law_poll_in_order(cfg, rcfg, given, books, now, shown, today);
    lemma_reboots_rules(
        cfg,
        rcfg,
        given,
        begun(now, shown, today),
        Outcome { books, handled: Seq::empty(), reboots: Seq::empty() },
        matches_by_rule(rcfg.rule@, given),
    );
}

} // verus!
