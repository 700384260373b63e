//! One poll: every rule is asked in turn, and each device that it matches is
//! rebooted, announced or left alone.
//!
//! A poll is a sequence of steps. Each step says what is to be done next; the
//! caller does it and hands back what came of it.

use super::config::{RemediatorConfig, Rule};
use super::metrics::MetricsSnapshot;
use super::state::{
    after_attempt, cooldown_left, decide, decision, fresh, record_reboot, reboots_on,
    spec_cooldown_left, Decision, DeviceState, DeviceStateView, Limits,
};
use crate::config::{device_named, lemma_device_named, Config, Device};
use crate::tables::{
    bumped, counted, distinct, has_key, has_room, lemma_bumped, lemma_place, lemma_put,
    lemma_room, lemma_seeded, lookup, place, put, row_at, seeded, table_view, tally_view, CountKey,
    Counts, Table, Tally,
};
use crate::text::{holds_text, text_views};
use vstd::prelude::*;

verus! {

/// What the remediator remembers between polls.
pub struct Inner {
    pub devices: Table<DeviceState>,
    /// Reboots performed, by device and rule.
    pub reboots_total: Tally,
    /// Reboots that were only announced, by device and rule.
    pub would_reboot_total: Tally,
    /// Reboots that failed, by device and rule.
    pub reboot_failures_total: Tally,
    /// When each device was last rebooted, as the metrics show it.
    pub last_reboot_ts: Table<String>,
    /// Whether the circuit breaker held a device back when it was last looked
    /// at.
    pub circuit_open: Table<bool>,
}

/// [`Inner`] as rows of plain values.
#[verifier::ext_equal]
pub struct Books {
    pub devices: Seq<(Seq<char>, DeviceStateView)>,
    pub reboots_total: Counts,
    pub would_reboot_total: Counts,
    pub reboot_failures_total: Counts,
    pub last_reboot_ts: Seq<(Seq<char>, Seq<char>)>,
    pub circuit_open: Seq<(Seq<char>, bool)>,
}

impl View for Inner {
    type V = Books;

    open spec fn view(&self) -> Books {
        Books {
            devices: self.devices@,
            reboots_total: self.reboots_total@,
            would_reboot_total: self.would_reboot_total@,
            reboot_failures_total: self.reboot_failures_total@,
            last_reboot_ts: self.last_reboot_ts@,
            circuit_open: self.circuit_open@,
        }
    }
}

impl Books {
    /// Nothing remembered.
    pub open spec fn empty() -> Books {
        Books {
            devices: Seq::empty(),
            reboots_total: Seq::empty(),
            would_reboot_total: Seq::empty(),
            reboot_failures_total: Seq::empty(),
            last_reboot_ts: Seq::empty(),
            circuit_open: Seq::empty(),
        }
    }

    /// No key has two rows.
    pub open spec fn wf(self) -> bool {
        &&& distinct(self.devices)
        &&& distinct(self.reboots_total)
        &&& distinct(self.would_reboot_total)
        &&& distinct(self.reboot_failures_total)
        &&& distinct(self.last_reboot_ts)
        &&& distinct(self.circuit_open)
    }

    /// Every counter can still grow.
    pub open spec fn has_room(self) -> bool {
        &&& has_room(self.reboots_total, 1)
        &&& has_room(self.would_reboot_total, 1)
        &&& has_room(self.reboot_failures_total, 1)
    }

    /// What is remembered before the first poll.
    pub open spec fn at_start(cfg: Config, rcfg: RemediatorConfig) -> Books {
        Books::empty().with_devices(cfg.device@, rcfg.rule@)
    }

    /// Whether `snap` shows what is remembered.
    pub open spec fn shown_by(self, snap: MetricsSnapshot) -> bool {
        &&& tally_view(snap.reboots_total@) == self.reboots_total
        &&& tally_view(snap.would_reboot_total@) == self.would_reboot_total
        &&& tally_view(snap.reboot_failures_total@) == self.reboot_failures_total
        &&& table_view(snap.last_reboot_ts@) == self.last_reboot_ts
        &&& table_view(snap.circuit_open@) == self.circuit_open
    }

    /// What is remembered of a device.
    pub open spec fn state_of(self, name: Seq<char>) -> DeviceStateView {
        match lookup(self.devices, name) {
            Some(st) => st,
            None => fresh(),
        }
    }

    /// No device has more reboots on its day than `max`.
    pub open spec fn within(self, max: u32) -> bool {
        forall|i: int|
            0 <= i < self.devices.len() ==> (#[trigger] self.devices[i]).1.reboots_today <= max
    }

    /// The circuit breaker's flag of a device set to `open`.
    pub open spec fn with_circuit(self, name: Seq<char>, open: bool) -> Books {
        Books { circuit_open: put(self.circuit_open, name, open), ..self }
    }

    /// A reboot of a device attempted.
    pub open spec fn with_attempt(self, name: Seq<char>, now: u64, today: Seq<char>) -> Books {
        Books {
            devices: put(self.devices, name, after_attempt(self.state_of(name), now, today)),
            ..self
        }
    }

    /// A reboot announced.
    pub open spec fn with_would_reboot(self, name: Seq<char>, reason: Seq<char>) -> Books {
        Books { would_reboot_total: bumped(self.would_reboot_total, (name, reason)), ..self }
    }

    /// A reboot that succeeded at the moment shown as `shown`.
    pub open spec fn with_reboot(self, name: Seq<char>, reason: Seq<char>, shown: Seq<char>) -> Books {
        Books {
            reboots_total: bumped(self.reboots_total, (name, reason)),
            last_reboot_ts: put(self.last_reboot_ts, name, shown),
            ..self
        }
    }

    /// A reboot that failed.
    pub open spec fn with_failure(self, name: Seq<char>, reason: Seq<char>) -> Books {
        Books { reboot_failures_total: bumped(self.reboot_failures_total, (name, reason)), ..self }
    }

    /// The counters of a device and a rule begun at zero, and the breaker's
    /// flag of the device cleared.
    pub open spec fn with_seed(self, name: Seq<char>, reason: Seq<char>) -> Books {
        Books {
            reboots_total: seeded(self.reboots_total, (name, reason)),
            would_reboot_total: seeded(self.would_reboot_total, (name, reason)),
            reboot_failures_total: seeded(self.reboot_failures_total, (name, reason)),
            circuit_open: put(self.circuit_open, name, false),
            ..self
        }
    }

    /// Seeded for one device and each of `rules`.
    pub open spec fn with_rules(self, name: Seq<char>, rules: Seq<Rule>) -> Books
        decreases rules.len(),
    {
        if rules.len() == 0 {
            self
        } else {
            self.with_rules(name, rules.drop_last()).with_seed(name, rules.last().name@)
        }
    }

    /// Seeded for each of `devices` and each of `rules`.
    pub open spec fn with_devices(self, devices: Seq<Device>, rules: Seq<Rule>) -> Books
        decreases devices.len(),
    {
        if devices.len() == 0 {
            self
        } else {
            self.with_devices(devices.drop_last(), rules).with_rules(devices.last().name@, rules)
        }
    }
}

/// A moment: in nanoseconds since the Unix epoch, and as the metrics show it,
/// in seconds.
#[derive(Debug, Clone)]
pub struct Moment {
    pub nanos: u64,
    pub shown: String,
}

/// What a poll waits for.
#[derive(Debug, Clone, Copy, PartialEq, Eq, Structural)]
pub enum Awaiting {
    Nothing,
    /// The devices that a rule matches.
    Matches,
    /// The outcome of a reboot.
    Reboot,
}

/// How far a poll has come.
pub struct Poll {
    pub now: Moment,
    pub today: String,
    /// How many rules were asked.
    pub asked: usize,
    /// The devices that the last rule matched.
    pub matched: Vec<String>,
    /// How many of them were looked at.
    pub considered: usize,
    /// The devices that this poll has acted on.
    pub handled: Vec<String>,
    pub awaiting: Awaiting,
}

/// A [`Poll`] with its texts as character sequences.
#[verifier::ext_equal]
pub struct PollView {
    pub now: u64,
    pub shown: Seq<char>,
    pub today: Seq<char>,
    pub asked: nat,
    pub matched: Seq<Seq<char>>,
    pub considered: nat,
    pub handled: Seq<Seq<char>>,
    pub awaiting: Awaiting,
}

impl View for Poll {
    type V = PollView;

    open spec fn view(&self) -> PollView {
        PollView {
            now: self.now.nanos,
            shown: self.now.shown@,
            today: self.today@,
            asked: self.asked as nat,
            matched: text_views(self.matched@),
            considered: self.considered as nat,
            handled: text_views(self.handled@),
            awaiting: self.awaiting,
        }
    }
}

impl PollView {
    /// What holds of a poll of `rules` rules at every step.
    pub open spec fn wf(self, rules: nat) -> bool {
        &&& self.asked <= rules
        &&& self.considered <= self.matched.len()
        &&& self.matched.len() > 0 ==> self.asked > 0
        &&& self.awaiting is Matches ==> self.asked > 0
        &&& self.awaiting is Reboot ==> self.considered > 0
    }

    /// How many queries are without an answer.
    pub open spec fn answers_owed(self) -> int {
        if self.awaiting is Matches {
            1
        } else {
            0
        }
    }

    /// The device that was looked at last.
    pub open spec fn device(self) -> Seq<char> {
        self.matched[self.considered - 1]
    }
}

/// A poll that begins.
pub open spec fn begun(now: u64, shown: Seq<char>, today: Seq<char>) -> PollView {
    PollView {
        now,
        shown,
        today,
        asked: 0,
        matched: Seq::empty(),
        considered: 0,
        handled: Seq::empty(),
        awaiting: Awaiting::Nothing,
    }
}

/// What came of what a step asked for.
pub enum Event {
    /// Nothing was asked for.
    Proceed,
    /// The devices that the rule matches.
    Matched(Vec<String>),
    QueryFailed,
    Rebooted,
    RebootFailed,
}

/// An [`Event`] with its texts as character sequences.
pub enum EventView {
    Proceed,
    Matched(Seq<Seq<char>>),
    QueryFailed,
    Rebooted,
    RebootFailed,
}

impl View for Event {
    type V = EventView;

    open spec fn view(&self) -> EventView {
        match *self {
            Event::Proceed => EventView::Proceed,
            Event::Matched(list) => EventView::Matched(text_views(list@)),
            Event::QueryFailed => EventView::QueryFailed,
            Event::Rebooted => EventView::Rebooted,
            Event::RebootFailed => EventView::RebootFailed,
        }
    }
}

/// What is to be done, or what was decided of the device looked at.
#[derive(Debug, Clone, Copy, PartialEq, Eq, Structural)]
pub enum Action {
    /// Ask which devices the rule at this position matches.
    Query { rule: usize },
    /// The poll has acted on the device already.
    Handled,
    /// The configuration has no such device.
    Unknown,
    /// Announce a reboot.
    WouldReboot,
    /// Reboot the device at this position of the configuration.
    Reboot { device: usize },
    /// The device is left alone for so many nanoseconds more.
    Cooldown { left: u128 },
    /// The device has reached its limit for the day.
    CircuitOpen,
    /// All rules were asked.
    Done,
}

/// The limits that the configuration sets.
pub open spec fn limits_of(rcfg: RemediatorConfig) -> Limits {
    Limits { cooldown_secs: rcfg.cooldown_secs, max_reboots_per_day: rcfg.max_reboots_per_day }
}

/// What is done with a device that a rule matched.
pub open spec fn judged(
    cfg: Config,
    rcfg: RemediatorConfig,
    books: Books,
    poll: PollView,
    name: Seq<char>,
) -> Action {
    if poll.handled.contains(name) {
        Action::Handled
    } else {
        match device_named(cfg.device@, name) {
            None => Action::Unknown,
            Some(i) => {
                let st = books.state_of(name);
                match decision(st, limits_of(rcfg), poll.now, poll.today) {
                    Decision::CircuitOpen => Action::CircuitOpen,
                    Decision::Cooldown => Action::Cooldown {
                        left: spec_cooldown_left(st, limits_of(rcfg), poll.now) as u128,
                    },
                    Decision::Reboot => if rcfg.dry_run {
                        Action::WouldReboot
                    } else {
                        Action::Reboot { device: i as usize }
                    },
                }
            },
        }
    }
}

/// What is remembered once `action` was decided of device `name`.
pub open spec fn books_after(
    books: Books,
    poll: PollView,
    action: Action,
    name: Seq<char>,
    reason: Seq<char>,
) -> Books {
    match action {
        Action::CircuitOpen => books.with_circuit(name, true),
        Action::Cooldown { .. } => books.with_circuit(name, false),
        Action::WouldReboot => books.with_circuit(name, false).with_attempt(
            name,
            poll.now,
            poll.today,
        ).with_would_reboot(name, reason),
        Action::Reboot { .. } => books.with_circuit(name, false).with_attempt(
            name,
            poll.now,
            poll.today,
        ),
        _ => books,
    }
}

/// Whether `action` counts as an attempt to reboot.
pub open spec fn attempts(action: Action) -> bool {
    action is WouldReboot || action is Reboot
}

/// What is remembered once `event` has come.
pub open spec fn books_with(
    rcfg: RemediatorConfig,
    books: Books,
    poll: PollView,
    event: EventView,
) -> Books {
    if poll.awaiting is Reboot {
        let reason = rcfg.rule@[poll.asked - 1].name@;
        if event is Rebooted {
            books.with_reboot(poll.device(), reason, poll.shown)
        } else {
            books.with_failure(poll.device(), reason)
        }
    } else {
        books
    }
}

/// The poll once `event` has come. A query without an answer has matched
/// nothing.
pub open spec fn poll_with(poll: PollView, event: EventView) -> PollView {
    if poll.awaiting is Matches {
        PollView {
            matched: match event {
                EventView::Matched(list) => list,
                _ => Seq::empty(),
            },
            considered: 0,
            awaiting: Awaiting::Nothing,
            ..poll
        }
    } else {
        PollView { awaiting: Awaiting::Nothing, ..poll }
    }
}

/// What a step does when nothing is awaited: it looks at the next device, asks
/// the next rule, or ends the poll.
pub open spec fn advanced(
    cfg: Config,
    rcfg: RemediatorConfig,
    books: Books,
    poll: PollView,
) -> (Books, PollView, Action) {
    if poll.considered < poll.matched.len() {
        let name = poll.matched[poll.considered as int];
        let action = judged(cfg, rcfg, books, poll, name);
        let reason = rcfg.rule@[poll.asked - 1].name@;
        (
            books_after(books, poll, action, name, reason),
            PollView {
                considered: poll.considered + 1,
                handled: if attempts(action) {
                    poll.handled.push(name)
                } else {
                    poll.handled
                },
                awaiting: if action is Reboot {
                    Awaiting::Reboot
                } else {
                    Awaiting::Nothing
                },
                ..poll
            },
            action,
        )
    } else if poll.asked < rcfg.rule@.len() {
        (
            books,
            PollView {
                asked: poll.asked + 1,
                matched: Seq::empty(),
                considered: 0,
                awaiting: Awaiting::Matches,
                ..poll
            },
            Action::Query { rule: poll.asked as usize },
        )
    } else {
        (books, poll, Action::Done)
    }
}

/// One step of a poll.
pub open spec fn stepped(
    cfg: Config,
    rcfg: RemediatorConfig,
    books: Books,
    poll: PollView,
    event: EventView,
) -> (Books, PollView, Action) {
    advanced(cfg, rcfg, books_with(rcfg, books, poll, event), poll_with(poll, event))
}

/// The remediator: its configuration and what it remembers.
pub struct AppState {
    pub cfg: Config,
    pub rcfg: RemediatorConfig,
    pub inner: Inner,
}

impl Inner {
    /// Nothing remembered.
    pub fn new() -> (r: Inner)
        ensures
            r@ == Books::empty(),
            r@.wf(),
            r@.has_room(),
    {
        Inner {
            devices: Table::new(),
            reboots_total: Tally::new(),
            would_reboot_total: Tally::new(),
            reboot_failures_total: Tally::new(),
            last_reboot_ts: Table::new(),
            circuit_open: Table::new(),
        }
    }

    /// Begins the counters of a device and a rule at zero.
    pub fn seed(&mut self, name: &str, reason: &str)
        requires
            old(self)@.wf(),
        ensures
            final(self)@ == old(self)@.with_seed(name@, reason@),
            final(self)@.wf(),
    {
        self.reboots_total.seed(name, reason);
        self.would_reboot_total.seed(name, reason);
        self.reboot_failures_total.seed(name, reason);
        self.circuit_open.set(name, false);
    }

    /// Begins the counters of every device and rule at zero.
    pub fn seed_all(&mut self, devices: &[Device], rules: &[Rule])
        requires
            old(self)@.wf(),
        ensures
            final(self)@ == old(self)@.with_devices(devices@, rules@),
            final(self)@.wf(),
            final(self)@.devices == old(self)@.devices,
    {
        let ghost start = self@;
        let mut i: usize = 0;
        assert(devices@.take(0) =~= Seq::<Device>::empty());
        while i < devices.len()
            invariant
                i <= devices.len(),
                self@.wf(),
                self@ == start.with_devices(devices@.take(i as int), rules@),
                self@.devices == start.devices,
            decreases devices.len() - i,
        {
            let ghost before = self@;
            let mut j: usize = 0;
            assert(rules@.take(0) =~= Seq::<Rule>::empty());
            while j < rules.len()
                invariant
                    i < devices.len(),
                    j <= rules.len(),
                    self@.wf(),
                    self@ == before.with_rules(devices@[i as int].name@, rules@.take(j as int)),
                    self@.devices == start.devices,
                decreases rules.len() - j,
            {
                assert(rules@.take(j + 1).drop_last() =~= rules@.take(j as int));
                self.seed(devices[i].name.as_str(), rules[j].name.as_str());
                j = j + 1;
            }
            assert(rules@.take(rules@.len() as int) =~= rules@);
            assert(devices@.take(i + 1).drop_last() =~= devices@.take(i as int));
            i = i + 1;
        }
        assert(devices@.take(devices@.len() as int) =~= devices@);
    }

    fn last_reboots(&self) -> (r: Vec<(String, String)>)
        ensures
            table_view(r@) == self@.last_reboot_ts,
    {
        let rows = &self.last_reboot_ts.rows;
        let mut out: Vec<(String, String)> = Vec::new();
        let mut i: usize = 0;
        assert(table_view(out@) =~= table_view(rows@.take(0)));
        while i < rows.len()
            invariant
                i <= rows.len(),
                table_view(out@) == table_view(rows@.take(i as int)),
            decreases rows.len() - i,
        {
            let row = (rows[i].0.as_str().to_owned(), rows[i].1.as_str().to_owned());
            let ghost before = table_view(out@);
            out.push(row);
            assert(table_view(out@) =~= before.push((rows@[i as int].0@, rows@[i as int].1@)));
            assert(table_view(rows@.take(i + 1)) =~= table_view(rows@.take(i as int)).push(
                (rows@[i as int].0@, rows@[i as int].1@),
            ));
            i = i + 1;
        }
        assert(rows@.take(rows@.len() as int) =~= rows@);
        out
    }

    fn circuits(&self) -> (r: Vec<(String, bool)>)
        ensures
            table_view(r@) == self@.circuit_open,
    {
        let rows = &self.circuit_open.rows;
        let mut out: Vec<(String, bool)> = Vec::new();
        let mut i: usize = 0;
        assert(table_view(out@) =~= table_view(rows@.take(0)));
        while i < rows.len()
            invariant
                i <= rows.len(),
                table_view(out@) == table_view(rows@.take(i as int)),
            decreases rows.len() - i,
        {
            let row = (rows[i].0.as_str().to_owned(), rows[i].1);
            let ghost before = table_view(out@);
            out.push(row);
            assert(table_view(out@) =~= before.push((rows@[i as int].0@, rows@[i as int].1@)));
            assert(table_view(rows@.take(i + 1)) =~= table_view(rows@.take(i as int)).push(
                (rows@[i as int].0@, rows@[i as int].1@),
            ));
            i = i + 1;
        }
        assert(rows@.take(rows@.len() as int) =~= rows@);
        out
    }

    /// What is remembered of a device.
    fn state_of(&self, name: &str) -> (r: DeviceState)
        requires
            self@.wf(),
        ensures
            r@ == self@.state_of(name@),
    {
        match self.devices.get(name) {
            Some(st) => st.copied(),
            None => DeviceState::default(),
        }
    }
}

impl Poll {
    /// A poll at `now` on `today`, with nothing done yet.
    pub fn new(now: Moment, today: &str) -> (r: Poll)
        ensures
            r@ == begun(now.nanos, now.shown@, today@),
    {
        let r = Poll {
            now,
            today: today.to_owned(),
            asked: 0,
            matched: Vec::new(),
            considered: 0,
            handled: Vec::new(),
            awaiting: Awaiting::Nothing,
        };
        assert(r@.matched =~= Seq::empty());
        assert(r@.handled =~= Seq::empty());
        r
    }
}

impl AppState {
    /// What holds of the remediator between steps.
    pub open spec fn wf(self) -> bool {
        &&& self.inner@.wf()
        &&& self.inner@.within(self.rcfg.max_reboots_per_day)
    }

    /// A remediator that has done nothing yet. Its counters begin at zero for
    /// every device and rule.
    pub fn new(cfg: Config, rcfg: RemediatorConfig) -> (r: AppState)
        ensures
            r.cfg == cfg,
            r.rcfg == rcfg,
            r.inner@ == Books::empty().with_devices(cfg.device@, rcfg.rule@),
            r.inner@ == Books::at_start(cfg, rcfg),
            r.wf(),
            r.inner@.has_room(),
    {
        let mut inner = Inner::new();
        inner.seed_all(cfg.device.as_slice(), rcfg.rule.as_slice());
        proof {
            law_counters_begin_at_zero(cfg.device@, rcfg.rule@);
            lemma_zero_has_room(inner@);
        }
        AppState { cfg, rcfg, inner }
    }

    /// What the remediator has done so far, for its metrics.
    pub fn snapshot(&self) -> (r: MetricsSnapshot)
        ensures
            tally_view(r.reboots_total@) == self.inner@.reboots_total,
            tally_view(r.would_reboot_total@) == self.inner@.would_reboot_total,
            tally_view(r.reboot_failures_total@) == self.inner@.reboot_failures_total,
            table_view(r.last_reboot_ts@) == self.inner@.last_reboot_ts,
            table_view(r.circuit_open@) == self.inner@.circuit_open,
            self.inner@.shown_by(r),
    {
        MetricsSnapshot {
            reboots_total: self.inner.reboots_total.copied(),
            would_reboot_total: self.inner.would_reboot_total.copied(),
            reboot_failures_total: self.inner.reboot_failures_total.copied(),
            last_reboot_ts: self.inner.last_reboots(),
            circuit_open: self.inner.circuits(),
        }
    }

    /// Whether every counter can still grow.
    pub fn has_room(&self) -> (r: bool)
        ensures
            r == self.inner@.has_room(),
    {
        self.inner.reboots_total.roomy(1) && self.inner.would_reboot_total.roomy(1)
            && self.inner.reboot_failures_total.roomy(1)
    }

    fn limits(&self) -> (r: Limits)
        ensures
            r == limits_of(self.rcfg),
    {
        Limits {
            cooldown_secs: self.rcfg.cooldown_secs,
            max_reboots_per_day: self.rcfg.max_reboots_per_day,
        }
    }

    /// Takes in what came of what the last step asked for.
    fn absorb(&mut self, poll: &mut Poll, event: Event)
        requires
            old(self).wf(),
            old(self).inner@.has_room(),
            old(poll)@.wf(old(self).rcfg.rule@.len()),
        ensures
            final(self).cfg == old(self).cfg,
            final(self).rcfg == old(self).rcfg,
            final(self).inner@ == books_with(
                old(self).rcfg,
                old(self).inner@,
                old(poll)@,
                event@,
            ),
            final(poll)@ == poll_with(old(poll)@, event@),
            final(self).wf(),
            final(poll)@.wf(old(self).rcfg.rule@.len()),
    {
        match poll.awaiting {
            Awaiting::Matches => {
                poll.matched = match event {
                    Event::Matched(list) => list,
                    _ => Vec::new(),
                };
                poll.considered = 0;
                poll.awaiting = Awaiting::Nothing;
                assert(poll@ =~= poll_with(old(poll)@, event@));
            },
            Awaiting::Reboot => {
                let name = poll.matched[poll.considered - 1].as_str();
                let reason = self.rcfg.rule[poll.asked - 1].name.as_str();
                let done = match event {
                    Event::Rebooted => true,
                    _ => false,
                };
                proof {
                    lemma_room(self.inner.reboots_total@, (name@, reason@), 1);
                    lemma_room(self.inner.reboot_failures_total@, (name@, reason@), 1);
                }
                if done {
                    self.inner.reboots_total.bump(name, reason);
                    let shown = poll.now.shown.as_str().to_owned();
                    self.inner.last_reboot_ts.set(name, shown);
                } else {
                    self.inner.reboot_failures_total.bump(name, reason);
                }
                poll.awaiting = Awaiting::Nothing;
                assert(poll@ =~= poll_with(old(poll)@, event@));
            },
            Awaiting::Nothing => {
                assert(poll@ =~= poll_with(old(poll)@, event@));
            },
        }
    }

    /// Decides what is done with the next device that the rule matched.
    fn consider(&mut self, poll: &mut Poll) -> (r: Action)
        requires
            old(self).wf(),
            has_room(old(self).inner@.would_reboot_total, 1),
            old(poll)@.wf(old(self).rcfg.rule@.len()),
            old(poll)@.awaiting is Nothing,
            old(poll)@.considered < old(poll)@.matched.len(),
        ensures
            final(self).cfg == old(self).cfg,
            final(self).rcfg == old(self).rcfg,
            (final(self).inner@, final(poll)@, r) == advanced(
                old(self).cfg,
                old(self).rcfg,
                old(self).inner@,
                old(poll)@,
            ),
            final(self).wf(),
            final(poll)@.wf(old(self).rcfg.rule@.len()),
    {
        let ghost books = self.inner@;
        let ghost before = poll@;
        let at: usize = poll.considered;
        assert(at < poll.matched.len());
        let name = poll.matched[at].as_str().to_owned();
        poll.considered = at + 1;
        assert(name@ == before.matched[before.considered as int]);
        if holds_text(poll.handled.as_slice(), name.as_str()) {
            assert(poll@ =~= (PollView { considered: before.considered + 1, ..before }));
            return Action::Handled;
        }
        let found = match self.cfg.find_device(name.as_str()) {
            Some(i) => i,
            None => {
                assert(poll@ =~= (PollView { considered: before.considered + 1, ..before }));
                return Action::Unknown;
            },
        };
        let limits = self.limits();
        let mut st = self.inner.state_of(name.as_str());
        let now: u64 = poll.now.nanos;
        let verdict = decide(&st, &limits, now, poll.today.as_str());
        let open = match verdict {
            Decision::CircuitOpen => true,
            _ => false,
        };
        self.inner.circuit_open.set(name.as_str(), open);
        match verdict {
            Decision::CircuitOpen => {
                assert(poll@ =~= (PollView { considered: before.considered + 1, ..before }));
                Action::CircuitOpen
            },
            Decision::Cooldown => {
                assert(poll@ =~= (PollView { considered: before.considered + 1, ..before }));
                Action::Cooldown { left: cooldown_left(&st, &limits, now) }
            },
            Decision::Reboot => {
                let ghost names_before = text_views(poll.handled@);
                let handled = name.as_str().to_owned();
                poll.handled.push(handled);
                assert(text_views(poll.handled@) =~= names_before.push(name@));
                record_reboot(&mut st, now, poll.today.as_str());
                proof {
                    lemma_within(books, name@, now, before.today, self.rcfg);
                    lemma_room(books.would_reboot_total, (
                        name@,
                        self.rcfg.rule@[before.asked - 1].name@,
                    ), 1);
                }
                self.inner.devices.set(name.as_str(), st);
                if self.rcfg.dry_run {
                    let reason = self.rcfg.rule[poll.asked - 1].name.as_str();
                    self.inner.would_reboot_total.bump(name.as_str(), reason);
                    assert(poll@ =~= (PollView {
                        considered: before.considered + 1,
                        handled: before.handled.push(name@),
                        ..before
                    }));
                    Action::WouldReboot
                } else {
                    poll.awaiting = Awaiting::Reboot;
                    assert(poll@ =~= (PollView {
                        considered: before.considered + 1,
                        handled: before.handled.push(name@),
                        awaiting: Awaiting::Reboot,
                        ..before
                    }));
                    Action::Reboot { device: found }
                }
            },
        }
    }

    /// One step of a poll: takes in what came of the last step, and says what
    /// is to be done next.
    pub fn step(&mut self, poll: &mut Poll, event: Event) -> (r: Action)
        requires
            old(self).wf(),
            old(self).inner@.has_room(),
            old(poll)@.wf(old(self).rcfg.rule@.len()),
        ensures
            final(self).cfg == old(self).cfg,
            final(self).rcfg == old(self).rcfg,
            (final(self).inner@, final(poll)@, r) == stepped(
                old(self).cfg,
                old(self).rcfg,
                old(self).inner@,
                old(poll)@,
                event@,
            ),
            final(self).wf(),
            final(poll)@.wf(old(self).rcfg.rule@.len()),
    {
        self.absorb(poll, event);
        if poll.considered < poll.matched.len() {
            return self.consider(poll);
        }
        let ghost before = poll@;
        if poll.asked < self.rcfg.rule.len() {
            let rule: usize = poll.asked;
            poll.asked = rule + 1;
            poll.matched = Vec::new();
            poll.considered = 0;
            poll.awaiting = Awaiting::Matches;
            assert(poll@ =~= (PollView {
                asked: before.asked + 1,
                matched: Seq::empty(),
                considered: 0,
                awaiting: Awaiting::Matches,
                ..before
            }));
            return Action::Query { rule };
        }
        Action::Done
    }
}

/// An attempt that the decision allows keeps every device within the limit.
proof fn lemma_within(
    books: Books,
    name: Seq<char>,
    now: u64,
    today: Seq<char>,
    rcfg: RemediatorConfig,
)
    requires
        books.wf(),
        books.within(rcfg.max_reboots_per_day),
        decision(books.state_of(name), limits_of(rcfg), now, today) == Decision::Reboot,
    ensures
        books.with_attempt(name, now, today).within(rcfg.max_reboots_per_day),
{
    if has_key(books.devices, name) {
        assert(row_at(books.devices, name, place(books.devices, name)));
    }
}

/// A dry run never asks for a reboot, whatever happens, and so never waits for
/// one.
pub proof fn law_dry_run_reboots_nothing(
    cfg: Config,
    rcfg: RemediatorConfig,
    books: Books,
    poll: PollView,
    event: EventView,
)
    requires
        rcfg.dry_run,
    ensures
        stepped(cfg, rcfg, books, poll, event).2 !is Reboot,
        stepped(cfg, rcfg, books, poll, event).1.awaiting !is Reboot,
        poll.awaiting !is Reboot ==> {
            let after = stepped(cfg, rcfg, books, poll, event).0;
            &&& after.reboots_total == books.reboots_total
            &&& after.reboot_failures_total == books.reboot_failures_total
            &&& after.last_reboot_ts == books.last_reboot_ts
        },
{
}

/// A poll acts on a device once at most: an attempt is made only on a device
/// that the poll has not acted on, that device then counts as acted on, and it
/// does so for the rest of the poll. The devices acted on are as many as the
/// attempts, and all different.
pub proof fn law_once_per_poll(
    cfg: Config,
    rcfg: RemediatorConfig,
    books: Books,
    poll: PollView,
    event: EventView,
)
    ensures
        ({
            let (_, after, action) = stepped(cfg, rcfg, books, poll, event);
            &&& attempts(action) ==> !poll.handled.contains(after.device())
                && after.handled.contains(after.device())
            &&& poll.handled.is_prefix_of(after.handled)
            &&& after.handled.len() == poll.handled.len() + if attempts(action) {
                1int
            } else {
                0int
            }
            &&& poll.handled.no_duplicates() ==> after.handled.no_duplicates()
        }),
{
    let (_, after, action) = stepped(cfg, rcfg, books, poll, event);
    if attempts(action) {
        assert(after.handled.last() == after.device());
    }
}

/// The configuration that differs from `rcfg` in whether it is a dry run.
pub open spec fn with_dry_run(rcfg: RemediatorConfig, dry_run: bool) -> RemediatorConfig {
    RemediatorConfig { dry_run, ..rcfg }
}

/// What comes of a reboot changes neither cooldowns nor daily counts: a failed
/// attempt weighs as much as one that succeeded.
pub proof fn law_failure_weighs_the_same(
    rcfg: RemediatorConfig,
    books: Books,
    poll: PollView,
    event: EventView,
)
    ensures
        books_with(rcfg, books, poll, event).devices == books.devices,
        books_with(rcfg, books, poll, event).circuit_open == books.circuit_open,
{
}

/// A reboot that failed counts as a failure of its device and rule, and leaves
/// the counts of reboots and the times of the last reboots as they were.
pub proof fn law_failed_reboot(rcfg: RemediatorConfig, books: Books, poll: PollView)
    requires
        books.wf(),
        books.has_room(),
        poll.awaiting is Reboot,
    ensures
        ({
            let after = books_with(rcfg, books, poll, EventView::RebootFailed);
            let key = (poll.device(), rcfg.rule@[poll.asked - 1].name@);
            &&& counted(after.reboot_failures_total, key) == counted(
                books.reboot_failures_total,
                key,
            ) + 1
            &&& after.reboots_total == books.reboots_total
            &&& after.last_reboot_ts == books.last_reboot_ts
        }),
{
    let key = (poll.device(), rcfg.rule@[poll.asked - 1].name@);
    lemma_room(books.reboot_failures_total, key, 1);
    lemma_bumped(books.reboot_failures_total, key);
}

/// A reboot that succeeded counts once for its device and rule and sets the
/// time of the device's last reboot, and is no failure.
pub proof fn law_reboot_counted(rcfg: RemediatorConfig, books: Books, poll: PollView)
    requires
        books.wf(),
        books.has_room(),
        poll.awaiting is Reboot,
    ensures
        ({
            let after = books_with(rcfg, books, poll, EventView::Rebooted);
            let key = (poll.device(), rcfg.rule@[poll.asked - 1].name@);
            &&& counted(after.reboots_total, key) == counted(books.reboots_total, key) + 1
            &&& lookup(after.last_reboot_ts, poll.device()) == Some(poll.shown)
            &&& after.reboot_failures_total == books.reboot_failures_total
        }),
{
    let key = (poll.device(), rcfg.rule@[poll.asked - 1].name@);
    lemma_room(books.reboots_total, key, 1);
    lemma_bumped(books.reboots_total, key);
    lemma_put(books.last_reboot_ts, poll.device(), poll.shown);
}

/// No counter ever shrinks.
pub proof fn law_counters_never_shrink(
    cfg: Config,
    rcfg: RemediatorConfig,
    books: Books,
    poll: PollView,
    event: EventView,
    key: CountKey,
)
    requires
        books.wf(),
        books.has_room(),
    ensures
        ({
            let after = stepped(cfg, rcfg, books, poll, event).0;
            &&& counted(after.reboots_total, key) >= counted(books.reboots_total, key)
            &&& counted(after.would_reboot_total, key) >= counted(books.would_reboot_total, key)
            &&& counted(after.reboot_failures_total, key) >= counted(
                books.reboot_failures_total,
                key,
            )
        }),
{
    let rebooted = (poll.device(), rcfg.rule@[poll.asked - 1].name@);
    lemma_room(books.reboots_total, rebooted, 1);
    lemma_bumped(books.reboots_total, rebooted);
    lemma_room(books.reboot_failures_total, rebooted, 1);
    lemma_bumped(books.reboot_failures_total, rebooted);
    let next = poll_with(poll, event);
    let looked_at = (
        next.matched[next.considered as int],
        rcfg.rule@[next.asked - 1].name@,
    );
    lemma_room(books.would_reboot_total, looked_at, 1);
    lemma_bumped(books.would_reboot_total, looked_at);
}

/// The breaker's flag of a device that was looked at says whether the breaker
/// holds it back, so it clears when the condition no longer holds.
pub proof fn law_circuit_flag(
    cfg: Config,
    rcfg: RemediatorConfig,
    books: Books,
    poll: PollView,
    name: Seq<char>,
    reason: Seq<char>,
)
    requires
        books.wf(),
        !poll.handled.contains(name),
        device_named(cfg.device@, name) is Some,
    ensures
        ({
            let action = judged(cfg, rcfg, books, poll, name);
            lookup(books_after(books, poll, action, name, reason).circuit_open, name) == Some(
                reboots_on(books.state_of(name), poll.today) >= rcfg.max_reboots_per_day,
            )
        }),
{
    lemma_put(books.circuit_open, name, true);
    lemma_put(books.circuit_open, name, false);
}

/// A device that the configuration does not name is never acted on, and nothing
/// is remembered of it.
pub proof fn law_unknown_left_alone(
    cfg: Config,
    rcfg: RemediatorConfig,
    books: Books,
    poll: PollView,
    name: Seq<char>,
    reason: Seq<char>,
)
    requires
        forall|i: int| 0 <= i < cfg.device@.len() ==> (#[trigger] cfg.device@[i]).name@ != name,
    ensures
        !attempts(judged(cfg, rcfg, books, poll, name)),
        books_after(books, poll, judged(cfg, rcfg, books, poll, name), name, reason) == books,
{
    lemma_device_named(cfg.device@, name);
}

/// The device that a step asks to reboot is the one that the rule matched.
pub proof fn law_reboots_the_matched(
    cfg: Config,
    rcfg: RemediatorConfig,
    books: Books,
    poll: PollView,
    name: Seq<char>,
)
    requires
        judged(cfg, rcfg, books, poll, name) is Reboot,
    ensures
        ({
            let i = judged(cfg, rcfg, books, poll, name)->device;
            i < cfg.device@.len() && cfg.device@[i as int].name@ == name
        }),
{
    lemma_device_named(cfg.device@, name);
    assert(cfg.device.len() == cfg.device@.len());
}

/// A query that failed costs its own rule only: nothing is remembered of it,
/// and the poll goes on with the next rule.
pub proof fn law_failed_query_skips_rule(
    cfg: Config,
    rcfg: RemediatorConfig,
    books: Books,
    poll: PollView,
)
    requires
        poll.awaiting is Matches,
        poll.asked <= usize::MAX,
    ensures
        ({
            let (after, _, action) = stepped(cfg, rcfg, books, poll, EventView::QueryFailed);
            &&& after == books
            &&& action == if poll.asked < rcfg.rule@.len() {
                Action::Query { rule: poll.asked as usize }
            } else {
                Action::Done
            }
        }),
{
}

/// Every poll ends: a step that does not end it comes closer to the end, by the
/// rules that are left, then by whether an answer is awaited, then by the
/// devices that are left.
pub proof fn law_poll_ends(
    cfg: Config,
    rcfg: RemediatorConfig,
    books: Books,
    poll: PollView,
    event: EventView,
)
    requires
        poll.wf(rcfg.rule@.len()),
        stepped(cfg, rcfg, books, poll, event).2 !is Done,
    ensures
        ({
            let after = stepped(cfg, rcfg, books, poll, event).1;
            decreases_to!(
                rcfg.rule@.len() - poll.asked,
                poll.answers_owed(),
                poll.matched.len() - poll.considered
                =>
                rcfg.rule@.len() - after.asked,
                after.answers_owed(),
                after.matched.len() - after.considered)
        }),
{
}

proof fn lemma_seed_one(books: Books, name: Seq<char>, reason: Seq<char>)
    requires
        books.wf(),
    ensures
        books.with_seed(name, reason).wf(),
        zeroed(books.with_seed(name, reason), name, reason),
        forall|n: Seq<char>, r: Seq<char>|
            #[trigger] zeroed(books, n, r) ==> zeroed(books.with_seed(name, reason), n, r),
        nothing_counted(books) ==> nothing_counted(books.with_seed(name, reason)),
{
    let key = (name, reason);
    lemma_seeded(books.reboots_total, key);
    lemma_seeded(books.would_reboot_total, key);
    lemma_seeded(books.reboot_failures_total, key);
    lemma_put(books.circuit_open, name, false);
    let after = books.with_seed(name, reason);
    assert forall|n: Seq<char>, r: Seq<char>| #[trigger] zeroed(books, n, r) implies zeroed(
        after,
        n,
        r,
    ) by {
        if n != name {
            assert(lookup(after.circuit_open, n) == lookup(books.circuit_open, n));
        }
    }
    if nothing_counted(books) {
        assert forall|k: CountKey|
            #![trigger counted(after.reboots_total, k)]
            counted(after.reboots_total, k) == 0 && counted(after.would_reboot_total, k) == 0
                && counted(after.reboot_failures_total, k) == 0 by {
            assert(counted(books.reboots_total, k) == 0);
        }
    }
}

/// Whether no counter has counted anything.
pub open spec fn nothing_counted(books: Books) -> bool {
    forall|k: CountKey|
        #![trigger counted(books.reboots_total, k)]
        counted(books.reboots_total, k) == 0 && counted(books.would_reboot_total, k) == 0
            && counted(books.reboot_failures_total, k) == 0
}

/// Whether the counters of a device and a rule have their rows, and the
/// breaker's flag of the device is cleared.
pub open spec fn zeroed(books: Books, name: Seq<char>, reason: Seq<char>) -> bool {
    &&& has_key(books.reboots_total, (name, reason))
    &&& has_key(books.would_reboot_total, (name, reason))
    &&& has_key(books.reboot_failures_total, (name, reason))
    &&& lookup(books.circuit_open, name) == Some(false)
}

proof fn lemma_seed_rules(books: Books, name: Seq<char>, rules: Seq<Rule>)
    requires
        books.wf(),
    ensures
        books.with_rules(name, rules).wf(),
        books.with_rules(name, rules).last_reboot_ts == books.last_reboot_ts,
        books.with_rules(name, rules).devices == books.devices,
        forall|j: int|
            0 <= j < rules.len() ==> zeroed(
                books.with_rules(name, rules),
                name,
                (#[trigger] rules[j]).name@,
            ),
        forall|n: Seq<char>, r: Seq<char>|
            #[trigger] zeroed(books, n, r) ==> zeroed(books.with_rules(name, rules), n, r),
        nothing_counted(books) ==> nothing_counted(books.with_rules(name, rules)),
    decreases rules.len(),
{
    if rules.len() > 0 {
        let before = books.with_rules(name, rules.drop_last());
        lemma_seed_rules(books, name, rules.drop_last());
        lemma_seed_one(before, name, rules.last().name@);
        assert forall|j: int| 0 <= j < rules.len() implies zeroed(
            books.with_rules(name, rules),
            name,
            (#[trigger] rules[j]).name@,
        ) by {
            if j < rules.len() - 1 {
                assert(zeroed(before, name, rules.drop_last()[j].name@));
            }
        }
    }
}

/// Counters that have counted nothing can grow.
proof fn lemma_zero_has_room(books: Books)
    requires
        books.wf(),
        nothing_counted(books),
    ensures
        books.has_room(),
{
    assert forall|i: int| 0 <= i < books.reboots_total.len() implies (
    #[trigger] books.reboots_total[i]).1 == 0 by {
        let key = books.reboots_total[i].0;
        lemma_place(books.reboots_total, key, i);
        assert(counted(books.reboots_total, key) == 0);
    }
    assert forall|i: int| 0 <= i < books.would_reboot_total.len() implies (
    #[trigger] books.would_reboot_total[i]).1 == 0 by {
        let key = books.would_reboot_total[i].0;
        lemma_place(books.would_reboot_total, key, i);
        assert(counted(books.reboots_total, key) == 0);
    }
    assert forall|i: int| 0 <= i < books.reboot_failures_total.len() implies (
    #[trigger] books.reboot_failures_total[i]).1 == 0 by {
        let key = books.reboot_failures_total[i].0;
        lemma_place(books.reboot_failures_total, key, i);
        assert(counted(books.reboots_total, key) == 0);
    }
}

/// Before the first poll every device and rule of the configuration has its
/// counters at zero and the device's breaker flag cleared, while no device has a
/// time of a last reboot.
pub proof fn law_counters_begin_at_zero(devices: Seq<Device>, rules: Seq<Rule>)
    ensures
        ({
            let books = Books::empty().with_devices(devices, rules);
            &&& books.wf()
            &&& nothing_counted(books)
            &&& books.last_reboot_ts.len() == 0
            &&& books.devices.len() == 0
            &&& forall|i: int, j: int|
                0 <= i < devices.len() && 0 <= j < rules.len() ==> zeroed(
                    books,
                    (#[trigger] devices[i]).name@,
                    (#[trigger] rules[j]).name@,
                )
        }),
    decreases devices.len(),
{
    if devices.len() == 0 {
        let books = Books::empty();
        assert forall|k: CountKey| #![trigger counted(books.reboots_total, k)]
            counted(books.reboots_total, k) == 0 by {}
    } else {
        let before = Books::empty().with_devices(devices.drop_last(), rules);
        law_counters_begin_at_zero(devices.drop_last(), rules);
        lemma_seed_rules(before, devices.last().name@, rules);
        let books = Books::empty().with_devices(devices, rules);
        assert forall|i: int, j: int| 0 <= i < devices.len() && 0 <= j < rules.len() implies zeroed(
            books,
            (#[trigger] devices[i]).name@,
            (#[trigger] rules[j]).name@,
        ) by {
            if i < devices.len() - 1 {
                assert(zeroed(before, devices.drop_last()[i].name@, rules[j].name@));
            }
        }
    }
}

} // verus!
