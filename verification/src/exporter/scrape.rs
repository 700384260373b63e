//! One scrape: every device is read, and what came of it is counted and shown.

use super::metrics::{
    count_views, opt_str_view, outcome_views, render, rendered, DeviceOutcome, OutcomeView,
};
use crate::client::{Client, ClientOpts, EMPTY_BODY};
use crate::config::{
    config_of, creds_read, Answer, Config, Device, PasswordSource, ResolvedCreds,
};
use crate::decode::{DeviceStatus, DeviceStatusView};
use crate::error::{Error, ErrorView, Result};
use crate::ms::{self, MsCmd};
use crate::phy::{PhyRates, PhyRatesView};
use crate::reads::{
    phy_next, reply_view, status_stepped, Next, NextView, PhyRead, PhyView, StatusRead,
};
use crate::tables::{
    bumped, counted, distinct, has_room, lemma_bumped, lemma_put, lemma_room, lookup, put, CountKey,
    Counts, Table, Tally,
};
use crate::text::same_text;
use vstd::prelude::*;

verus! {

/// The reason that the metrics give for an error.
pub open spec fn reason_of(e: ErrorView) -> Seq<char> {
    match e {
        ErrorView::Timeout => "timeout"@,
        ErrorView::Auth => "auth"@,
        ErrorView::Csrf => "csrf"@,
        ErrorView::HttpStatus(_) => "http_status"@,
        ErrorView::Decode { .. } => "decode"@,
        ErrorView::Http(_) => "unreachable"@,
        ErrorView::Config(_) => "config"@,
    }
}

/// The reason that the metrics give for an error.
pub fn reason_for(err: &Error) -> (r: &'static str)
    ensures
        r@ == reason_of(err@),
{
    match err {
        Error::Timeout => "timeout",
        Error::Auth => "auth",
        Error::Csrf => "csrf",
        Error::HttpStatus(_) => "http_status",
        Error::Decode { .. } => "decode",
        Error::Http(_) => "unreachable",
        Error::Config(_) => "config",
    }
}

/// What was read of a device: its status and rates, as far as they were to be
/// had, and the error that ended the read early.
pub struct Reading {
    pub status: Option<DeviceStatus>,
    pub phy: Option<PhyRates>,
    pub error: Option<Error>,
}

/// A [`Reading`] by its views.
#[verifier::ext_equal]
pub struct ReadingView {
    pub status: Option<DeviceStatusView>,
    pub phy: Option<PhyRatesView>,
    pub error: Option<ErrorView>,
}

impl View for Reading {
    type V = ReadingView;

    open spec fn view(&self) -> ReadingView {
        ReadingView {
            status: match self.status {
                Some(s) => Some(s@),
                None => None,
            },
            phy: match self.phy {
                Some(p) => Some(p@),
                None => None,
            },
            error: match self.error {
                Some(e) => Some(e@),
                None => None,
            },
        }
    }
}

/// What follows in reading a device.
pub enum DeviceNext {
    Read { cmd: MsCmd, body: String },
    Done(Reading),
}

/// A [`DeviceNext`] by its views.
#[verifier::ext_equal]
pub enum DeviceNextView {
    Read { cmd: MsCmd, body: Seq<char> },
    Done(ReadingView),
}

impl View for DeviceNext {
    type V = DeviceNextView;

    open spec fn view(&self) -> DeviceNextView {
        match *self {
            DeviceNext::Read { cmd, body } => DeviceNextView::Read { cmd, body: body@ },
            DeviceNext::Done(reading) => DeviceNextView::Done(reading@),
        }
    }
}

/// Reading a device: its status, and then, if that is to be had, its rates.
pub struct DeviceRead {
    pub status_read: StatusRead,
    pub status: Option<DeviceStatus>,
    pub phy_read: PhyRead,
}

/// A [`DeviceRead`] by its views.
#[verifier::ext_equal]
pub struct DeviceReadView {
    pub answers: Seq<Seq<u32>>,
    pub status: Option<DeviceStatusView>,
    pub phy: PhyView,
}

impl View for DeviceRead {
    type V = DeviceReadView;

    open spec fn view(&self) -> DeviceReadView {
        DeviceReadView {
            answers: self.status_read.so_far(),
            status: match self.status {
                Some(s) => Some(s@),
                None => None,
            },
            phy: self.phy_read@,
        }
    }
}

/// What follows a reply while the status is read.
pub open spec fn status_phase(
    known: DeviceReadView,
    reply: core::result::Result<Seq<u32>, ErrorView>,
) -> (DeviceReadView, DeviceNextView) {
    let (answers, next) = status_stepped(known.answers, reply);
    let after = DeviceReadView { answers, ..known };
    match next {
        NextView::Read { cmd, body } => (after, DeviceNextView::Read { cmd, body }),
        NextView::Done(Err(e)) => (
            after,
            DeviceNextView::Done(ReadingView { status: None, phy: None, error: Some(e) }),
        ),
        NextView::Done(Ok(status)) => (
            DeviceReadView { status: Some(status), ..after },
            DeviceNextView::Read { cmd: ms::local_info(), body: EMPTY_BODY@ },
        ),
    }
}

/// What follows a reply while the rates are read.
pub open spec fn phy_phase(
    known: DeviceReadView,
    reply: core::result::Result<Seq<u32>, ErrorView>,
) -> (DeviceReadView, DeviceNextView) {
    let (phy, next) = match reply {
        Ok(words) => (known.phy.with(words), phy_next(known.phy.with(words))),
        Err(e) => (known.phy, NextView::Done(Err(e))),
    };
    let after = DeviceReadView { phy, ..known };
    match next {
        NextView::Read { cmd, body } => (after, DeviceNextView::Read { cmd, body }),
        NextView::Done(Err(e)) => (
            after,
            DeviceNextView::Done(ReadingView { status: known.status, phy: None, error: Some(e) }),
        ),
        NextView::Done(Ok(rates)) => (
            after,
            DeviceNextView::Done(
                ReadingView { status: known.status, phy: Some(rates), error: None },
            ),
        ),
    }
}

/// What follows a reply: the rates are read once the status is there.
pub open spec fn device_stepped(
    known: DeviceReadView,
    reply: core::result::Result<Seq<u32>, ErrorView>,
) -> (DeviceReadView, DeviceNextView) {
    if known.status is None {
        status_phase(known, reply)
    } else {
        phy_phase(known, reply)
    }
}

impl DeviceRead {
    /// What holds while a device is read.
    pub open spec fn wf(self) -> bool {
        &&& self@.status is None ==> self@.answers.len() < 6 && self@.phy.local is None
        &&& self.phy_read.wf()
    }

    /// Begins the read: nothing is read yet.
    pub fn new() -> (r: (DeviceRead, DeviceNext))
        ensures
            r.0@ == (DeviceReadView {
                answers: Seq::empty(),
                status: None,
                phy: PhyView { local: None, nets: Seq::empty(), fmrs: Seq::empty() },
            }),
            r.1@ == (DeviceNextView::Read { cmd: ms::local_info(), body: EMPTY_BODY@ }),
            r.0.wf(),
    {
        let (status_read, _) = StatusRead::new();
        let (phy_read, _) = PhyRead::new();
        let read = DeviceRead { status_read, status: None, phy_read };
        (read, DeviceNext::Read { cmd: ms::local_info(), body: EMPTY_BODY.to_owned() })
    }

    /// Takes in the words of a register, or the error of reading it, and says
    /// what follows.
    pub fn step(&mut self, reply: Result<Vec<u32>>) -> (r: DeviceNext)
        requires
            old(self).wf(),
        ensures
            r@ == device_stepped(old(self)@, reply_view(reply)).1,
            r is Read ==> final(self)@ == device_stepped(old(self)@, reply_view(reply)).0
                && final(self).wf(),
    {
        if self.status.is_none() {
            match self.status_read.step(reply) {
                Next::Read { cmd, body } => {
                    proof {
                        assert(self@ =~= device_stepped(old(self)@, reply_view(reply)).0);
                    }
                    DeviceNext::Read { cmd, body }
                },
                Next::Done(Ok(status)) => {
                    self.status = Some(status);
                    proof {
                        assert(self@ =~= device_stepped(old(self)@, reply_view(reply)).0);
                    }
                    DeviceNext::Read { cmd: ms::local_info(), body: EMPTY_BODY.to_owned() }
                },
                Next::Done(Err(e)) => DeviceNext::Done(
                    Reading { status: None, phy: None, error: Some(e) },
                ),
            }
        } else {
            match self.phy_read.step(reply) {
                Next::Read { cmd, body } => {
                    proof {
                        assert(self@ =~= device_stepped(old(self)@, reply_view(reply)).0);
                    }
                    DeviceNext::Read { cmd, body }
                },
                Next::Done(Ok(rates)) => DeviceNext::Done(
                    Reading { status: self.status.take(), phy: Some(rates), error: None },
                ),
                Next::Done(Err(e)) => DeviceNext::Done(
                    Reading { status: self.status.take(), phy: None, error: Some(e) },
                ),
            }
        }
    }
}

/// What came of one device in a scrape.
pub struct DeviceResult {
    pub name: String,
    pub host: String,
    pub up: bool,
    pub error_reason: Option<&'static str>,
    /// How long it took, in seconds.
    pub duration_secs: String,
    pub status: Option<DeviceStatus>,
    pub phy: Option<PhyRates>,
}

/// A [`DeviceResult`] by its views.
#[verifier::ext_equal]
pub struct ResultView {
    pub name: Seq<char>,
    pub host: Seq<char>,
    pub up: bool,
    pub error_reason: Option<Seq<char>>,
    pub duration_secs: Seq<char>,
    pub status: Option<DeviceStatusView>,
    pub phy: Option<PhyRatesView>,
}

impl View for DeviceResult {
    type V = ResultView;

    open spec fn view(&self) -> ResultView {
        ResultView {
            name: self.name@,
            host: self.host@,
            up: self.up,
            error_reason: opt_str_view(self.error_reason),
            duration_secs: self.duration_secs@,
            status: match self.status {
                Some(s) => Some(s@),
                None => None,
            },
            phy: match self.phy {
                Some(p) => Some(p@),
                None => None,
            },
        }
    }
}

/// What a reading comes to: a device whose status was read is up, even where its
/// rates were not to be had.
pub open spec fn result_of(
    name: Seq<char>,
    host: Seq<char>,
    reading: ReadingView,
    duration: Seq<char>,
) -> ResultView {
    ResultView {
        name,
        host,
        up: reading.status is Some,
        error_reason: match reading.error {
            Some(e) => Some(reason_of(e)),
            None => None,
        },
        duration_secs: duration,
        status: reading.status,
        phy: reading.phy,
    }
}

/// A device that did not finish in time.
pub open spec fn timed_out(name: Seq<char>, host: Seq<char>, duration: Seq<char>) -> ResultView {
    ResultView {
        name,
        host,
        up: false,
        error_reason: Some("timeout"@),
        duration_secs: duration,
        status: None,
        phy: None,
    }
}

impl DeviceResult {
    /// What a reading comes to.
    pub fn new(name: &str, host: &str, reading: Reading, duration_secs: String) -> (r: DeviceResult)
        ensures
            r@ == result_of(name@, host@, reading@, duration_secs@),
    {
        let error_reason = match &reading.error {
            Some(e) => Some(reason_for(e)),
            None => None,
        };
        DeviceResult {
            name: name.to_owned(),
            host: host.to_owned(),
            up: reading.status.is_some(),
            error_reason,
            duration_secs,
            status: reading.status,
            phy: reading.phy,
        }
    }

    /// A device that did not finish in time.
    pub fn unfinished(name: &str, host: &str, duration_secs: &str) -> (r: DeviceResult)
        ensures
            r@ == timed_out(name@, host@, duration_secs@),
    {
        DeviceResult {
            name: name.to_owned(),
            host: host.to_owned(),
            up: false,
            error_reason: Some("timeout"),
            duration_secs: duration_secs.to_owned(),
            status: None,
            phy: None,
        }
    }
}

/// The failures of one device, by reason.
pub open spec fn counts_for(errors: Counts, name: Seq<char>) -> Seq<(Seq<char>, u64)>
    decreases errors.len(),
{
    if errors.len() == 0 {
        Seq::empty()
    } else {
        let before = counts_for(errors.drop_last(), name);
        let row = errors.last();
        if row.0.0 == name {
            before.push((row.0.1, row.1))
        } else {
            before
        }
    }
}

/// The failures counted once `results` have come.
pub open spec fn errors_after(errors: Counts, results: Seq<ResultView>) -> Counts
    decreases results.len(),
{
    if results.len() == 0 {
        errors
    } else {
        let before = errors_after(errors, results.drop_last());
        match results.last().error_reason {
            Some(reason) => bumped(before, (results.last().name, reason)),
            None => before,
        }
    }
}

/// When each device was last read without a failure, once `results` have come at
/// the moment shown as `now`.
pub open spec fn last_ok_after(
    last_ok: Seq<(Seq<char>, Seq<char>)>,
    results: Seq<ResultView>,
    now: Seq<char>,
) -> Seq<(Seq<char>, Seq<char>)>
    decreases results.len(),
{
    if results.len() == 0 {
        last_ok
    } else {
        let before = last_ok_after(last_ok, results.drop_last(), now);
        let last = results.last();
        if last.error_reason is None && last.up {
            put(before, last.name, now)
        } else {
            before
        }
    }
}

/// What is shown of a result.
pub open spec fn outcome_of(
    result: ResultView,
    errors: Counts,
    last_ok: Seq<(Seq<char>, Seq<char>)>,
) -> OutcomeView {
    OutcomeView {
        name: result.name,
        host: result.host,
        up: result.up,
        error_reason: result.error_reason,
        duration_secs: result.duration_secs,
        status: result.status,
        phy: result.phy,
        error_counts: counts_for(errors, result.name),
        last_success_ts: lookup(last_ok, result.name),
    }
}

/// What is shown of the results.
pub open spec fn outcomes_of(
    results: Seq<ResultView>,
    errors: Counts,
    last_ok: Seq<(Seq<char>, Seq<char>)>,
) -> Seq<OutcomeView> {
    results.map_values(|result: ResultView| outcome_of(result, errors, last_ok))
}

/// The results of a scrape: a device that has none when the time is up did not
/// finish.
pub open spec fn results_of(
    clients: Seq<(String, String, Client)>,
    slots: Seq<Option<DeviceResult>>,
    elapsed: Seq<char>,
) -> Seq<ResultView> {
    Seq::new(
        clients.len(),
        |i: int|
            match slots[i] {
                Some(result) => result@,
                None => timed_out(clients[i].0@, clients[i].1@, elapsed),
            },
    )
}

/// What a scrape comes to: the failures counted and the times of the last success
/// once it has ended, and the page that shows it.
pub open spec fn scraped(
    clients: Seq<(String, String, Client)>,
    slots: Seq<Option<DeviceResult>>,
    elapsed: Seq<char>,
    now: Seq<char>,
    errors: Counts,
    last_ok: Seq<(Seq<char>, Seq<char>)>,
) -> (Counts, Seq<(Seq<char>, Seq<char>)>, Seq<char>) {
    let results = results_of(clients, slots, elapsed);
    let errors = errors_after(errors, results);
    let last_ok = last_ok_after(last_ok, results, now);
    (errors, last_ok, rendered(outcomes_of(results, errors, last_ok)))
}

/// The results by their views.
pub open spec fn result_views(results: Seq<DeviceResult>) -> Seq<ResultView> {
    results.map_values(|result: DeviceResult| result@)
}

/// Whether `entry` is the client for `dev`, with credentials that it can have with
/// what `read` gives.
pub open spec fn client_for<F: Fn(&PasswordSource) -> Answer>(
    cfg: Config,
    dev: Device,
    read: F,
    entry: (String, String, Client),
) -> bool {
    &&& entry.0@ == dev.name@
    &&& entry.1@ == dev.host@
    &&& entry.2.base_url@ == "http://"@ + dev.host@
    &&& entry.2.opts == (ClientOpts {
        request_timeout_secs: cfg.request_timeout_secs,
        connect_timeout_secs: cfg.connect_timeout_secs,
        verbose: false,
    })
    &&& entry.2.csrf is None
    &&& creds_read(cfg, dev, read, Ok(entry.2.creds))
}

/// Whether `dev` has credentials with what `read` gives.
pub open spec fn has_creds<F: Fn(&PasswordSource) -> Answer>(
    cfg: Config,
    dev: Device,
    read: F,
) -> bool {
    exists|creds: ResolvedCreds| creds_read(cfg, dev, read, Ok(creds))
}

/// Whether device `i` is the first without credentials, for the reason `e`.
pub open spec fn lacks_creds<F: Fn(&PasswordSource) -> Answer>(
    cfg: Config,
    i: int,
    read: F,
    e: Error,
) -> bool {
    &&& 0 <= i < cfg.device@.len()
    &&& creds_read(cfg, cfg.device@[i], read, Err(e))
    &&& forall|k: int| 0 <= k < i ==> has_creds(cfg, #[trigger] cfg.device@[k], read)
}

/// Whether `r` is the exporter that the configuration `text` gives. Where it gives
/// none, `complaint` has the words for it, or a device has no credentials.
pub open spec fn starts<F: Fn(&PasswordSource) -> Answer, C: Fn(&str) -> String>(
    text: &str,
    read: F,
    complaint: C,
    r: Result<AppState>,
) -> bool {
    match (config_of(text@), r) {
        (None, r) => r matches Err(Error::Config(why)) && call_ensures(complaint, (text,), why),
        (Some(cfg), Ok(state)) => {
            &&& state.cfg@ == cfg
            &&& state.clients@.len() == state.cfg.device@.len()
            &&& forall|i: int|
                0 <= i < state.clients@.len() ==> client_for(
                    state.cfg,
                    state.cfg.device@[i],
                    read,
                    #[trigger] state.clients@[i],
                )
            &&& state.errors@.len() == 0
            &&& state.last_ok@.len() == 0
        },
        (Some(cfg), Err(e)) => exists|value: Config, i: int|
            value@ == cfg && #[trigger] lacks_creds(value, i, read, e),
    }
}

/// The exporter: its configuration, its adapters and what it counts across
/// scrapes.
pub struct AppState {
    pub cfg: Config,
    /// Name, host and client of each device, in the order of the configuration.
    pub clients: Vec<(String, String, Client)>,
    /// Failed scrapes, by device and reason.
    pub errors: Tally,
    /// When each device was last read without a failure, as the metrics show it.
    pub last_ok: Table<String>,
}

impl AppState {
    /// What holds of the exporter between scrapes.
    pub open spec fn wf(self) -> bool {
        distinct(self.errors@) && distinct(self.last_ok@)
    }

    /// An exporter for the devices of a configuration file. `read` is asked for
    /// the passwords that come from the environment or from files, and `complaint`
    /// has the words for what is wrong with a text that is no configuration.
    /// Nothing is sent to the devices yet.
    pub fn from_config_text<F: Fn(&PasswordSource) -> Answer, C: Fn(&str) -> String>(
        text: &str,
        read: &F,
        complaint: &C,
    ) -> (r: Result<AppState>)
        requires
            forall|source: &PasswordSource| call_requires(*read, (source,)),
            call_requires(*complaint, (text,)),
        ensures
            starts(text, *read, *complaint, r),
            r matches Ok(state) ==> state.wf(),
    {
        let cfg = match Config::from_toml(text, complaint) {
            Ok(cfg) => cfg,
            Err(e) => return Err(e),
        };
        let mut clients: Vec<(String, String, Client)> = Vec::new();
        let mut i: usize = 0;
        while i < cfg.device.len()
            invariant
                i <= cfg.device.len(),
                clients@.len() == i,
                config_of(text@) == Some(cfg@),
                forall|source: &PasswordSource| call_requires(*read, (source,)),
                forall|k: int|
                    0 <= k < i ==> client_for(
                        cfg,
                        cfg.device@[k],
                        *read,
                        #[trigger] clients@[k],
                    ),
            decreases cfg.device.len() - i,
        {
            let dev = &cfg.device[i];
            let creds = match cfg.creds_for(dev, read) {
                Ok(creds) => creds,
                Err(e) => {
                    proof {
                        assert forall|k: int| 0 <= k < i implies has_creds(
                            cfg,
                            #[trigger] cfg.device@[k],
                            *read,
                        ) by {
                            let entry = clients@[k];
                            assert(creds_read(cfg, cfg.device@[k], *read, Ok(entry.2.creds)));
                        }
                        assert(lacks_creds(cfg, i as int, *read, e));
                    }
                    return Err(e);
                },
            };
            let opts = ClientOpts {
                request_timeout_secs: cfg.request_timeout_secs,
                connect_timeout_secs: cfg.connect_timeout_secs,
                verbose: false,
            };
            let client = Client::new(dev.host.as_str(), creds, opts);
            clients.push((dev.name.as_str().to_owned(), dev.host.as_str().to_owned(), client));
            i = i + 1;
        }
        Ok(AppState { cfg, clients, errors: Tally::new(), last_ok: Table::new() })
    }

    /// Where the metrics are served.
    pub fn listen(&self) -> (r: &str)
        ensures
            r@ == self.cfg.listen@,
    {
        self.cfg.listen.as_str()
    }

    /// Whether the failures of one more scrape can be counted.
    pub fn has_room(&self) -> (r: bool)
        ensures
            r == has_room(self.errors@, self.clients@.len()),
    {
        self.errors.roomy(self.clients.len() as u64)
    }

    fn collect(&self, slots: Vec<Option<DeviceResult>>, elapsed: &str) -> (r: Vec<DeviceResult>)
        requires
            slots@.len() == self.clients@.len(),
        ensures
            result_views(r@) == results_of(self.clients@, slots@, elapsed@),
    {
        let ghost given = slots@;
        let ghost all = results_of(self.clients@, given, elapsed@);
        let mut slots = slots;
        let mut out: Vec<DeviceResult> = Vec::new();
        let mut i: usize = 0;
        assert(result_views(out@) =~= all.take(0));
        while i < slots.len()
            invariant
                i <= slots.len(),
                slots@.len() == self.clients@.len(),
                given.len() == slots@.len(),
                all == results_of(self.clients@, given, elapsed@),
                forall|k: int| i <= k < slots@.len() ==> slots@[k] == given[k],
                result_views(out@) == all.take(i as int),
            decreases slots.len() - i,
        {
            let mut slot: Option<DeviceResult> = None;
            slots.set_and_swap(i, &mut slot);
            let result = match slot {
                Some(result) => result,
                None => DeviceResult::unfinished(
                    self.clients[i].0.as_str(),
                    self.clients[i].1.as_str(),
                    elapsed,
                ),
            };
            let ghost before = result_views(out@);
            let ghost shown = result@;
            out.push(result);
            assert(shown == all[i as int]);
            assert(result_views(out@) =~= before.push(shown));
            assert(all.take(i + 1) =~= all.take(i as int).push(all[i as int]));
            i = i + 1;
        }
        assert(all.take(all.len() as int) =~= all);
        out
    }

    /// Counts what came of a scrape.
    fn count(&mut self, results: &[DeviceResult], now: &str)
        requires
            old(self).wf(),
            has_room(old(self).errors@, results@.len()),
        ensures
            final(self).cfg == old(self).cfg,
            final(self).clients == old(self).clients,
            final(self).errors@ == errors_after(old(self).errors@, result_views(results@)),
            final(self).last_ok@ == last_ok_after(
                old(self).last_ok@,
                result_views(results@),
                now@,
            ),
            final(self).wf(),
    {
        let ghost all = result_views(results@);
        let mut i: usize = 0;
        assert(all.take(0) =~= Seq::<ResultView>::empty());
        while i < results.len()
            invariant
                i <= results.len(),
                all == result_views(results@),
                self.wf(),
                self.cfg == old(self).cfg,
                self.clients == old(self).clients,
                has_room(self.errors@, (results@.len() - i) as nat),
                self.errors@ == errors_after(old(self).errors@, all.take(i as int)),
                self.last_ok@ == last_ok_after(old(self).last_ok@, all.take(i as int), now@),
            decreases results.len() - i,
        {
            let result = &results[i];
            proof {
                assert(all.take(i + 1).drop_last() =~= all.take(i as int));
                assert(all.take(i + 1).last() == result@);
            }
            match result.error_reason {
                Some(reason) => {
                    proof {
                        lemma_room(
                            self.errors@,
                            (result.name@, reason@),
                            (results@.len() - i) as nat,
                        );
                    }
                    self.errors.bump(result.name.as_str(), reason);
                },
                None => {
                    if result.up {
                        self.last_ok.set(result.name.as_str(), now.to_owned());
                    }
                },
            }
            i = i + 1;
        }
        assert(all.take(all.len() as int) =~= all);
    }

    /// The failures of one device, by reason.
    fn counts_of<'a>(&'a self, name: &str) -> (r: Vec<(&'a str, u64)>)
        ensures
            count_views(r@) == counts_for(self.errors@, name@),
    {
        let ghost all = self.errors@;
        let mut out: Vec<(&'a str, u64)> = Vec::new();
        let mut i: usize = 0;
        assert(count_views(out@) =~= counts_for(all.take(0), name@));
        while i < self.errors.rows.len()
            invariant
                i <= self.errors.rows.len(),
                all == self.errors@,
                count_views(out@) == counts_for(all.take(i as int), name@),
            decreases self.errors.rows.len() - i,
        {
            let row = &self.errors.rows[i];
            proof {
                assert(all.take(i + 1).drop_last() =~= all.take(i as int));
                assert(all.take(i + 1).last() == ((row.0@, row.1@), row.2));
            }
            if same_text(row.0.as_str(), name) {
                let ghost before = count_views(out@);
                out.push((row.1.as_str(), row.2));
                assert(count_views(out@) =~= before.push((row.1@, row.2)));
            }
            i = i + 1;
        }
        assert(all.take(all.len() as int) =~= all);
        out
    }

    /// Shows what came of a scrape.
    fn show(&self, results: &[DeviceResult]) -> (r: String)
        requires
            self.wf(),
        ensures
            r@ == rendered(outcomes_of(result_views(results@), self.errors@, self.last_ok@)),
    {
        let ghost all = outcomes_of(result_views(results@), self.errors@, self.last_ok@);
        let mut counts: Vec<Vec<(&str, u64)>> = Vec::new();
        let mut i: usize = 0;
        while i < results.len()
            invariant
                i <= results.len(),
                counts@.len() == i,
                all == outcomes_of(result_views(results@), self.errors@, self.last_ok@),
                forall|k: int|
                    0 <= k < i ==> count_views((#[trigger] counts@[k])@) == all[k].error_counts,
            decreases results.len() - i,
        {
            let of_device = self.counts_of(results[i].name.as_str());
            counts.push(of_device);
            i = i + 1;
        }
        let mut outcomes: Vec<DeviceOutcome<'_>> = Vec::new();
        let mut j: usize = 0;
        assert(outcome_views(outcomes@) =~= all.take(0));
        while j < results.len()
            invariant
                j <= results.len(),
                self.wf(),
                counts@.len() == results@.len(),
                all == outcomes_of(result_views(results@), self.errors@, self.last_ok@),
                forall|k: int|
                    0 <= k < counts@.len() ==> count_views((#[trigger] counts@[k])@)
                        == all[k].error_counts,
                outcome_views(outcomes@) == all.take(j as int),
            decreases results.len() - j,
        {
            let result = &results[j];
            let last = match self.last_ok.get(result.name.as_str()) {
                Some(ts) => Some(ts.as_str()),
                None => None,
            };
            let outcome = DeviceOutcome {
                name: result.name.as_str(),
                host: result.host.as_str(),
                up: result.up,
                error_reason: result.error_reason,
                duration_secs: result.duration_secs.as_str(),
                status: result.status.as_ref(),
                phy: result.phy.as_ref(),
                error_counts: counts[j].as_slice(),
                last_success_ts: last,
            };
            let ghost before = outcome_views(outcomes@);
            let ghost shown = outcome@;
            proof {
                assert(result_views(results@)[j as int] == result@);
                assert(shown =~= all[j as int]);
            }
            outcomes.push(outcome);
            assert(outcome_views(outcomes@) =~= before.push(shown));
            assert(all.take(j + 1) =~= all.take(j as int).push(all[j as int]));
            j = j + 1;
        }
        assert(all.take(all.len() as int) =~= all);
        render(outcomes.as_slice())
    }

    /// Ends a scrape: counts what came of it and shows it. `slots` holds what
    /// came of each device that finished, `elapsed` is how long the scrape took
    /// and `now` when it ended, as the metrics show it.
    pub fn finish_scrape(
        &mut self,
        slots: Vec<Option<DeviceResult>>,
        elapsed: &str,
        now: &str,
    ) -> (r: String)
        requires
            old(self).wf(),
            slots@.len() == old(self).clients@.len(),
            has_room(old(self).errors@, slots@.len()),
        ensures
            ({
                let results = results_of(old(self).clients@, slots@, elapsed@);
                &&& final(self).errors@ == errors_after(old(self).errors@, results)
                &&& final(self).last_ok@ == last_ok_after(old(self).last_ok@, results, now@)
                &&& r@ == rendered(
                    outcomes_of(results, final(self).errors@, final(self).last_ok@),
                )
            }),
            (final(self).errors@, final(self).last_ok@, r@) == scraped(
                old(self).clients@,
                slots@,
                elapsed@,
                now@,
                old(self).errors@,
                old(self).last_ok@,
            ),
            final(self).cfg == old(self).cfg,
            final(self).clients == old(self).clients,
            final(self).wf(),
    {
        let results = self.collect(slots, elapsed);
        assert(result_views(results@).len() == results@.len());
        self.count(results.as_slice(), now);
        self.show(results.as_slice())
    }
}

/// How many of the results count under `key`.
pub open spec fn failures(results: Seq<ResultView>, key: CountKey) -> nat
    decreases results.len(),
{
    if results.len() == 0 {
        0
    } else {
        let last = results.last();
        failures(results.drop_last(), key) + if last.name == key.0 && last.error_reason == Some(
            key.1,
        ) {
            1nat
        } else {
            0
        }
    }
}

/// Failures add up across scrapes: every result that failed counts once, under
/// its device and reason, and no count ever shrinks.
pub proof fn law_failures_add_up(errors: Counts, results: Seq<ResultView>, key: CountKey)
    requires
        distinct(errors),
        has_room(errors, results.len()),
    ensures
        distinct(errors_after(errors, results)),
        counted(errors_after(errors, results), key) == counted(errors, key) + failures(
            results,
            key,
        ),
{
    lemma_failures(errors, results, results.len(), key);
}

proof fn lemma_failures(errors: Counts, results: Seq<ResultView>, n: nat, key: CountKey)
    requires
        distinct(errors),
        has_room(errors, n),
        results.len() <= n,
    ensures
        distinct(errors_after(errors, results)),
        has_room(errors_after(errors, results), (n - results.len()) as nat),
        counted(errors_after(errors, results), key) == counted(errors, key) + failures(
            results,
            key,
        ),
    decreases results.len(),
{
    if results.len() > 0 {
        let before = errors_after(errors, results.drop_last());
        lemma_failures(errors, results.drop_last(), n, key);
        let left = (n - results.len() + 1) as nat;
        if let Some(reason) = results.last().error_reason {
            let own = (results.last().name, reason);
            lemma_room(before, own, left);
            lemma_bumped(before, own);
        }
    }
}

/// Whether one of the results is a reading of `name` without a failure.
pub open spec fn read_cleanly(results: Seq<ResultView>, name: Seq<char>) -> bool {
    exists|i: int|
        0 <= i < results.len() && (#[trigger] results[i]).name == name && results[i].up
            && results[i].error_reason is None
}

/// The time of the last success moves for the devices that were read without a
/// failure, and stays for all others.
pub proof fn law_last_success(
    last_ok: Seq<(Seq<char>, Seq<char>)>,
    results: Seq<ResultView>,
    now: Seq<char>,
    name: Seq<char>,
)
    requires
        distinct(last_ok),
    ensures
        distinct(last_ok_after(last_ok, results, now)),
        lookup(last_ok_after(last_ok, results, now), name) == if read_cleanly(results, name) {
            Some(now)
        } else {
            lookup(last_ok, name)
        },
    decreases results.len(),
{
    if results.len() > 0 {
        let rest = results.drop_last();
        let last = results.last();
        let before = last_ok_after(last_ok, rest, now);
        law_last_success(last_ok, rest, now, name);
        if last.error_reason is None && last.up {
            lemma_put(before, last.name, now);
        }
        if read_cleanly(rest, name) {
            let i = choose|i: int|
                0 <= i < rest.len() && (#[trigger] rest[i]).name == name && rest[i].up
                    && rest[i].error_reason is None;
            assert(results[i] == rest[i]);
        } else if read_cleanly(results, name) {
            let i = choose|i: int|
                0 <= i < results.len() && (#[trigger] results[i]).name == name && results[i].up
                    && results[i].error_reason is None;
            if i < rest.len() {
                assert(rest[i] == results[i]);
            }
        } else {
            assert(results[results.len() - 1] == last);
        }
    }
}

/// A device whose status was read is up; where its rates then fail, the failure
/// is counted all the same, and the scrape is no success.
pub proof fn law_rates_may_fail(
    name: Seq<char>,
    host: Seq<char>,
    status: DeviceStatusView,
    e: ErrorView,
    duration: Seq<char>,
)
    ensures
        ({
            let reading = ReadingView { status: Some(status), phy: None, error: Some(e) };
            let result = result_of(name, host, reading, duration);
            result.up && result.error_reason == Some(reason_of(e)) && result.status == Some(status)
        }),
{
}

/// A device that does not finish in time is shown as down for the reason
/// `timeout`, without holding up what the others gave.
pub proof fn law_slow_device_times_out(
    clients: Seq<(String, String, Client)>,
    slots: Seq<Option<DeviceResult>>,
    elapsed: Seq<char>,
    i: int,
)
    requires
        slots.len() == clients.len(),
        0 <= i < clients.len(),
    ensures
        results_of(clients, slots, elapsed).len() == clients.len(),
        slots[i] is None ==> {
            let result = results_of(clients, slots, elapsed)[i];
            &&& !result.up
            &&& result.error_reason == Some("timeout"@)
            &&& result.status is None
            &&& result.name == clients[i].0@
        },
        slots[i] matches Some(result) ==> results_of(clients, slots, elapsed)[i] == result@,
{
}

/// The rates of a device are read only once its status was read.
pub proof fn law_no_rates_without_status(
    known: DeviceReadView,
    reply: core::result::Result<Seq<u32>, ErrorView>,
)
    requires
        known.status is None,
        known.phy.local is None,
    ensures
        device_stepped(known, reply).1 matches DeviceNextView::Done(reading) ==> reading.status
            is None && reading.phy is None && reading.error is Some,
{
}

/// A scrape only reads: whatever the adapter replies, the command that reboots it
/// is never sent.
pub proof fn law_scrape_is_read_only(
    known: DeviceReadView,
    reply: core::result::Result<Seq<u32>, ErrorView>,
)
    ensures
        device_stepped(known, reply).1 matches DeviceNextView::Read { cmd, .. } ==> cmd
            != ms::reboot(),
{
}

} // verus!
