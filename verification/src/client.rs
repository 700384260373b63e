//! Talking to an adapter: what is sent, and what its replies mean.
//!
//! Every request carries the credentials. A register command also carries a
//! token that the adapter gives out in a cookie. The token is fetched once and
//! kept; when the adapter refuses it, it is fetched anew and the command is sent
//! once more.
//!
//! Nothing here sends anything. A conversation is a sequence of steps: each says
//! what to send, and the reply is handed to the next.

use crate::config::{CredsView, ResolvedCreds};
use crate::error::{Error, ErrorView, Result};
use crate::ms::{self, parse_ms_response, read_as, MsCmd};
use crate::text::{
    chars_of, is_white_space, lemma_split_first, lemma_split_whole, pieces, split, stands_at,
    text_between, trim, trimmed, views, Cut,
};
use vstd::prelude::*;

verus! {

/// Request body of a command without arguments.
pub const EMPTY_BODY: &'static str = "{\"data\":[]}";

/// Request body of a command that takes a single argument and ignores it.
pub const ZERO_ARG_BODY: &'static str = "{\"data\":[0]}";

/// How a [`Client`] talks to its adapter.
pub struct ClientOpts {
    /// How long a request may take, in seconds.
    pub request_timeout_secs: u64,
    /// How long it may take to reach the adapter, in seconds.
    pub connect_timeout_secs: u64,
    /// Whether each request and its outcome is logged.
    pub verbose: bool,
}

/// One adapter and what is known for talking to it.
pub struct Client {
    pub base_url: String,
    pub creds: ResolvedCreds,
    pub opts: ClientOpts,
    /// The token that the adapter gave out last.
    pub csrf: Option<String>,
}

#[derive(Debug, Clone, Copy, PartialEq, Eq, Structural)]
pub enum Method {
    Get,
    Post,
}

/// A request to an adapter. The credentials go into its basic authentication.
#[derive(Debug, Clone)]
pub struct Request {
    pub method: Method,
    pub url: String,
    pub creds: ResolvedCreds,
    pub headers: Vec<(String, String)>,
    pub body: String,
}

/// A [`Request`] with its texts as character sequences.
#[verifier::ext_equal]
pub struct RequestView {
    pub method: Method,
    pub url: Seq<char>,
    pub creds: CredsView,
    pub headers: Seq<(Seq<char>, Seq<char>)>,
    pub body: Seq<char>,
}

impl View for Request {
    type V = RequestView;

    open spec fn view(&self) -> RequestView {
        RequestView {
            method: self.method,
            url: self.url@,
            creds: self.creds@,
            headers: crate::json::member_views(self.headers@),
            body: self.body@,
        }
    }
}

/// The head of a reply: its status, and the cookie that it sets.
#[derive(Debug, Clone)]
pub struct Head {
    pub status: u16,
    pub set_cookie: Option<String>,
}

/// Why there is no reply: whether the adapter was reached at all, whether it
/// took too long, and the failure in words.
#[derive(Debug, Clone)]
pub struct Failure {
    pub connect: bool,
    pub timed_out: bool,
    pub text: String,
}

/// What came of a request.
pub type Reply = core::result::Result<Head, Failure>;

/// How far a command has come.
#[derive(Debug, Clone)]
pub struct Exchange {
    pub path: String,
    pub body: String,
    /// Whether the token was refused once.
    pub retried: bool,
    /// Whether the request on its way is for a token.
    pub fetching: bool,
}

/// An [`Exchange`] with its texts as character sequences.
#[verifier::ext_equal]
pub struct ExchangeView {
    pub path: Seq<char>,
    pub body: Seq<char>,
    pub retried: bool,
    pub fetching: bool,
}

impl View for Exchange {
    type V = ExchangeView;

    open spec fn view(&self) -> ExchangeView {
        ExchangeView {
            path: self.path@,
            body: self.body@,
            retried: self.retried,
            fetching: self.fetching,
        }
    }
}

/// What follows from a reply.
pub enum Step {
    /// Send this next.
    Send(Request),
    /// The command was answered with this status.
    Answered(u16),
    /// The command was sent, and no reply came.
    Lost(Failure),
    /// No token was to be had.
    Failed(Error),
}

/// A [`Step`] with its texts as character sequences.
#[verifier::ext_equal]
pub enum StepView {
    Send(RequestView),
    Answered(u16),
    Lost(bool, bool, Seq<char>),
    Failed(ErrorView),
}

impl View for Step {
    type V = StepView;

    open spec fn view(&self) -> StepView {
        match *self {
            Step::Send(request) => StepView::Send(request@),
            Step::Answered(code) => StepView::Answered(code),
            Step::Lost(failure) => StepView::Lost(
                failure.connect,
                failure.timed_out,
                failure.text@,
            ),
            Step::Failed(e) => StepView::Failed(e@),
        }
    }
}

/// Whether a status means success.
pub open spec fn is_success(code: u16) -> bool {
    200 <= code < 300
}

/// What a status that is no success means.
pub open spec fn status_error(code: u16) -> ErrorView {
    if code == 401 {
        ErrorView::Auth
    } else if code == 403 {
        ErrorView::Csrf
    } else {
        ErrorView::HttpStatus(code)
    }
}

/// What a missing reply means.
pub open spec fn transport_error(timed_out: bool, text: Seq<char>) -> ErrorView {
    if timed_out {
        ErrorView::Timeout
    } else {
        ErrorView::Http(text)
    }
}

fn status_to_error(code: u16) -> (r: Error)
    ensures
        r@ == status_error(code),
{
    match code {
        401 => Error::Auth,
        403 => Error::Csrf,
        other => Error::HttpStatus(other),
    }
}

fn failure_to_error(failure: Failure) -> (r: Error)
    ensures
        r@ == transport_error(failure.timed_out, failure.text@),
{
    if failure.timed_out {
        Error::Timeout
    } else {
        Error::Http(failure.text)
    }
}

/// The name of the cookie that holds the token, as a cookie begins with it.
pub open spec fn token_prefix() -> Seq<char> {
    "csrf_token="@
}

/// The token that one part of a cookie header holds.
pub open spec fn token_in(part: Seq<char>) -> Option<Seq<char>> {
    let inner = trim(part);
    if token_prefix().is_prefix_of(inner) {
        Some(inner.skip(token_prefix().len() as int))
    } else {
        None
    }
}

/// The token that the first part with one holds.
pub open spec fn first_token(parts: Seq<Seq<char>>) -> Option<Seq<char>>
    decreases parts.len(),
{
    if parts.len() == 0 {
        None
    } else {
        match token_in(parts[0]) {
            Some(token) => Some(token),
            None => first_token(parts.skip(1)),
        }
    }
}

/// The token that a cookie header sets.
pub open spec fn token_of(set_cookie: Seq<char>) -> Option<Seq<char>> {
    first_token(split(set_cookie, Cut::At(';').pred()))
}

/// The token that a cookie header sets, such as `ABC123` in
/// `csrf_token=ABC123; SameSite=Strict`.
pub fn extract_csrf_token(set_cookie: &str) -> (r: Option<String>)
    ensures
        match r {
            Some(token) => token_of(set_cookie@) == Some(token@),
            None => token_of(set_cookie@) is None,
        },
{
    let cs = chars_of(set_cookie);
    let parts = pieces(cs.as_slice(), Cut::At(';'));
    let prefix = chars_of("csrf_token=");
    let ghost all = views(parts@);
    let mut i: usize = 0;
    assert(all.skip(0) =~= all);
    while i < parts.len()
        invariant
            i <= parts.len(),
            all == views(parts@),
            prefix@ == token_prefix(),
            token_of(set_cookie@) == first_token(all),
            first_token(all) == first_token(all.skip(i as int)),
        decreases parts.len() - i,
    {
        let inner = trimmed(parts[i].as_slice());
        assert(inner@ == trim(all[i as int]));
        let found = stands_at(inner.as_slice(), prefix.as_slice(), 0);
        assert(found == token_prefix().is_prefix_of(inner@));
        if found {
            let token = text_between(inner.as_slice(), prefix.len(), inner.len());
            assert(token@ =~= inner@.skip(prefix@.len() as int));
            return Some(token);
        }
        assert(all.skip(i as int).skip(1) =~= all.skip(i + 1));
        i = i + 1;
    }
    None
}

impl Client {
    /// The request for a token.
    pub open spec fn token_request(self) -> RequestView {
        RequestView {
            method: Method::Get,
            url: self.base_url@ + "/index.html"@,
            creds: self.creds@,
            headers: Seq::empty(),
            body: Seq::empty(),
        }
    }

    /// The request that sends a command with `token`.
    pub open spec fn command_request(
        self,
        path: Seq<char>,
        body: Seq<char>,
        token: Seq<char>,
    ) -> RequestView {
        RequestView {
            method: Method::Post,
            url: self.base_url@ + path,
            creds: self.creds@,
            headers: seq![
                ("Content-Type"@, "application/x-www-form-urlencoded"@),
                ("X-CSRF-TOKEN"@, token),
                ("Cookie"@, "csrf_token="@ + token),
            ],
            body,
        }
    }

    /// The token that is kept.
    pub open spec fn token(self) -> Option<Seq<char>> {
        crate::json::opt_view(self.csrf)
    }

    /// Whether only the token differs.
    pub open spec fn same_but_token(self, other: Client) -> bool {
        self.base_url == other.base_url && self.creds == other.creds && self.opts == other.opts
    }

    /// Whether this is a client for the adapter at `host` that has no token yet.
    pub open spec fn is_fresh(
        self,
        host: Seq<char>,
        creds: ResolvedCreds,
        opts: ClientOpts,
    ) -> bool {
        &&& self.base_url@ == "http://"@ + host
        &&& self.creds == creds
        &&& self.opts == opts
        &&& self.csrf is None
    }

    /// How a reboot begins.
    pub open spec fn reboot_begun(self) -> (ExchangeView, RequestView) {
        self.begun(ms::reboot().spec_path(), EMPTY_BODY@)
    }

    /// A client for the adapter at `host`, which has no token yet.
    pub fn new(host: &str, creds: ResolvedCreds, opts: ClientOpts) -> (r: Client)
        ensures
            r.base_url@ == "http://"@ + host@,
            r.creds == creds,
            r.opts == opts,
            r.csrf is None,
            r.is_fresh(host@, creds, opts),
    {
        Client { base_url: "http://".to_owned().concat(host), creds, opts, csrf: None }
    }

    fn copy_creds(&self) -> (r: ResolvedCreds)
        ensures
            r@ == self.creds@,
    {
        ResolvedCreds {
            username: self.creds.username.as_str().to_owned(),
            password: self.creds.password.as_str().to_owned(),
        }
    }

    fn ask_token(&self) -> (r: Request)
        ensures
            r@ == self.token_request(),
    {
        let r = Request {
            method: Method::Get,
            url: self.base_url.as_str().to_owned().concat("/index.html"),
            creds: self.copy_creds(),
            headers: Vec::new(),
            body: String::new(),
        };
        assert(r@ =~= self.token_request());
        r
    }

    fn ask_command(&self, path: &str, body: &str, token: &str) -> (r: Request)
        ensures
            r@ == self.command_request(path@, body@, token@),
    {
        let headers: Vec<(String, String)> = vec![
            ("Content-Type".to_owned(), "application/x-www-form-urlencoded".to_owned()),
            ("X-CSRF-TOKEN".to_owned(), token.to_owned()),
            ("Cookie".to_owned(), "csrf_token=".to_owned().concat(token)),
        ];
        let r = Request {
            method: Method::Post,
            url: self.base_url.as_str().to_owned().concat(path),
            creds: self.copy_creds(),
            headers,
            body: body.to_owned(),
        };
        assert(r@ =~= self.command_request(path@, body@, token@));
        r
    }

    /// How a command begins: with the command itself if a token is kept, else
    /// with the request for one.
    pub open spec fn begun(self, path: Seq<char>, body: Seq<char>) -> (ExchangeView, RequestView) {
        self.begun_with(self.token(), path, body)
    }

    /// How a command begins where `token` is kept.
    pub open spec fn begun_with(
        self,
        token: Option<Seq<char>>,
        path: Seq<char>,
        body: Seq<char>,
    ) -> (ExchangeView, RequestView) {
        match token {
            Some(token) => (
                ExchangeView { path, body, retried: false, fetching: false },
                self.command_request(path, body, token),
            ),
            None => (
                ExchangeView { path, body, retried: false, fetching: true },
                self.token_request(),
            ),
        }
    }

    /// Begins a command.
    fn begin(&self, path: String, body: &str) -> (r: (Exchange, Request))
        ensures
            (r.0@, r.1@) == self.begun(path@, body@),
    {
        match &self.csrf {
            Some(token) => {
                let request = self.ask_command(path.as_str(), body, token.as_str());
                (Exchange { path, body: body.to_owned(), retried: false, fetching: false }, request)
            },
            None => {
                let request = self.ask_token();
                (Exchange { path, body: body.to_owned(), retried: false, fetching: true }, request)
            },
        }
    }

    /// Begins to read a register.
    pub fn read(&self, cmd: MsCmd, body: &str) -> (r: (Exchange, Request))
        ensures
            (r.0@, r.1@) == self.begun(cmd.spec_path(), body@),
    {
        self.begin(cmd.path(), body)
    }

    /// Begins to reboot the adapter.
    pub fn reboot(&self) -> (r: (Exchange, Request))
        ensures
            (r.0@, r.1@) == self.begun(ms::reboot().spec_path(), EMPTY_BODY@),
            (r.0@, r.1@) == self.reboot_begun(),
    {
        let cmd = ms::reboot();
        self.begin(cmd.path(), EMPTY_BODY)
    }

    /// What a reply to the request for a token means where `kept` is the token
    /// kept so far: the token to keep, the exchange and the step that follows.
    pub open spec fn fetched(self, kept: Option<Seq<char>>, ex: ExchangeView, reply: Reply) -> (
        Option<Seq<char>>,
        ExchangeView,
        StepView,
    ) {
        match reply {
            Err(failure) => (
                kept,
                ex,
                StepView::Failed(transport_error(failure.timed_out, failure.text@)),
            ),
            Ok(head) => if !is_success(head.status) {
                (kept, ex, StepView::Failed(status_error(head.status)))
            } else {
                match head.set_cookie {
                    None => (kept, ex, StepView::Failed(ErrorView::Csrf)),
                    Some(cookie) => match token_of(cookie@) {
                        None => (kept, ex, StepView::Failed(ErrorView::Csrf)),
                        Some(token) => (
                            Some(token),
                            ExchangeView { fetching: false, ..ex },
                            StepView::Send(self.command_request(ex.path, ex.body, token)),
                        ),
                    },
                }
            },
        }
    }

    /// What a reply to the command means where `kept` is the token kept so far.
    pub open spec fn answered(self, kept: Option<Seq<char>>, ex: ExchangeView, reply: Reply) -> (
        Option<Seq<char>>,
        ExchangeView,
        StepView,
    ) {
        match reply {
            Err(failure) => (
                kept,
                ex,
                StepView::Lost(failure.connect, failure.timed_out, failure.text@),
            ),
            Ok(head) => if head.status == 403 && !ex.retried {
                (
                    None,
                    ExchangeView { retried: true, fetching: true, ..ex },
                    StepView::Send(self.token_request()),
                )
            } else {
                (kept, ex, StepView::Answered(head.status))
            },
        }
    }

    /// What a reply means.
    pub open spec fn stepped(self, ex: ExchangeView, reply: Reply) -> (
        Option<Seq<char>>,
        ExchangeView,
        StepView,
    ) {
        self.stepped_with(self.token(), ex, reply)
    }

    /// What a reply means where `kept` is the token kept so far.
    pub open spec fn stepped_with(
        self,
        kept: Option<Seq<char>>,
        ex: ExchangeView,
        reply: Reply,
    ) -> (Option<Seq<char>>, ExchangeView, StepView) {
        if ex.fetching {
            self.fetched(kept, ex, reply)
        } else {
            self.answered(kept, ex, reply)
        }
    }

    /// Takes in a reply, and says what follows.
    pub fn step(&mut self, ex: &mut Exchange, reply: Reply) -> (r: Step)
        ensures
            final(self).same_but_token(*old(self)),
            (final(self).token(), final(ex)@, r@) == old(self).stepped(old(ex)@, reply),
    {
        let head = match reply {
            Ok(head) => head,
            Err(failure) => {
                if ex.fetching {
                    return Step::Failed(failure_to_error(failure));
                }
                return Step::Lost(failure);
            },
        };
        if ex.fetching {
            if head.status < 200 || head.status >= 300 {
                return Step::Failed(status_to_error(head.status));
            }
            let cookie = match head.set_cookie {
                Some(cookie) => cookie,
                None => return Step::Failed(Error::Csrf),
            };
            let token = match extract_csrf_token(cookie.as_str()) {
                Some(token) => token,
                None => return Step::Failed(Error::Csrf),
            };
            let request = self.ask_command(ex.path.as_str(), ex.body.as_str(), token.as_str());
            self.csrf = Some(token);
            ex.fetching = false;
            assert(ex@ =~= (ExchangeView { fetching: false, ..old(ex)@ }));
            Step::Send(request)
        } else if head.status == 403 && !ex.retried {
            let request = self.ask_token();
            self.csrf = None;
            ex.retried = true;
            ex.fetching = true;
            assert(ex@ =~= (ExchangeView { retried: true, fetching: true, ..old(ex)@ }));
            Step::Send(request)
        } else {
            Step::Answered(head.status)
        }
    }
}

/// What a read comes to once its command is answered.
pub enum ReadStep {
    Send(Request),
    /// Read the body of the reply.
    ReadBody,
    Failed(Error),
}

/// A [`ReadStep`] with its texts as character sequences.
#[verifier::ext_equal]
pub enum ReadStepView {
    Send(RequestView),
    ReadBody,
    Failed(ErrorView),
}

impl View for ReadStep {
    type V = ReadStepView;

    open spec fn view(&self) -> ReadStepView {
        match *self {
            ReadStep::Send(request) => ReadStepView::Send(request@),
            ReadStep::ReadBody => ReadStepView::ReadBody,
            ReadStep::Failed(e) => ReadStepView::Failed(e@),
        }
    }
}

/// What a step means for a read.
pub open spec fn read_step_of(step: StepView) -> ReadStepView {
    match step {
        StepView::Send(request) => ReadStepView::Send(request),
        StepView::Answered(code) => if is_success(code) {
            ReadStepView::ReadBody
        } else {
            ReadStepView::Failed(status_error(code))
        },
        StepView::Lost(_, timed_out, text) => ReadStepView::Failed(
            transport_error(timed_out, text),
        ),
        StepView::Failed(e) => ReadStepView::Failed(e),
    }
}

/// What a step means for a read.
pub fn read_step(step: Step) -> (r: ReadStep)
    ensures
        r@ == read_step_of(step@),
{
    match step {
        Step::Send(request) => ReadStep::Send(request),
        Step::Answered(code) => if code >= 200 && code < 300 {
            ReadStep::ReadBody
        } else {
            ReadStep::Failed(status_to_error(code))
        },
        Step::Lost(failure) => ReadStep::Failed(failure_to_error(failure)),
        Step::Failed(e) => ReadStep::Failed(e),
    }
}

/// The words that the body of a reply holds. `complaint` has the words for what is
/// wrong with a body that holds none.
pub fn read_body<C: Fn(&str) -> String>(
    body: core::result::Result<&str, Failure>,
    complaint: &C,
) -> (r: Result<Vec<u32>>)
    requires
        body matches Ok(text) ==> call_requires(*complaint, (text,)),
    ensures
        match body {
            Ok(text) => read_as(text, *complaint, r),
            Err(failure) => r matches Err(e) && e@ == transport_error(
                failure.timed_out,
                failure.text@,
            ),
        },
{
    match body {
        Ok(text) => parse_ms_response(text, complaint),
        Err(failure) => Err(failure_to_error(failure)),
    }
}

/// What a reboot comes to.
pub enum RebootStep {
    Send(Request),
    /// The adapter reboots.
    Rebooting,
    Failed(Error),
}

/// A [`RebootStep`] with its texts as character sequences.
#[verifier::ext_equal]
pub enum RebootStepView {
    Send(RequestView),
    Rebooting,
    Failed(ErrorView),
}

impl View for RebootStep {
    type V = RebootStepView;

    open spec fn view(&self) -> RebootStepView {
        match *self {
            RebootStep::Send(request) => RebootStepView::Send(request@),
            RebootStep::Rebooting => RebootStepView::Rebooting,
            RebootStep::Failed(e) => RebootStepView::Failed(e@),
        }
    }
}

/// What a step means for a reboot. An adapter that reboots drops the connection
/// without a reply, so a command that was sent and not answered has worked; it
/// has failed where the adapter was not reached at all.
pub open spec fn reboot_step_of(step: StepView) -> RebootStepView {
    match step {
        StepView::Send(request) => RebootStepView::Send(request),
        StepView::Answered(code) => if is_success(code) {
            RebootStepView::Rebooting
        } else {
            RebootStepView::Failed(status_error(code))
        },
        StepView::Lost(connect, _, text) => if connect {
            RebootStepView::Failed(ErrorView::Http(text))
        } else {
            RebootStepView::Rebooting
        },
        StepView::Failed(e) => RebootStepView::Failed(e),
    }
}

/// What a step means for a reboot.
pub fn reboot_step(step: Step) -> (r: RebootStep)
    ensures
        r@ == reboot_step_of(step@),
{
    match step {
        Step::Send(request) => RebootStep::Send(request),
        Step::Answered(code) => if code >= 200 && code < 300 {
            RebootStep::Rebooting
        } else {
            RebootStep::Failed(status_to_error(code))
        },
        Step::Lost(failure) => if failure.connect {
            RebootStep::Failed(Error::Http(failure.text))
        } else {
            RebootStep::Rebooting
        },
        Step::Failed(e) => RebootStep::Failed(e),
    }
}

impl ExchangeView {
    /// How many requests can still follow the one on its way.
    pub open spec fn requests_left(self) -> nat {
        match (self.retried, self.fetching) {
            (false, true) => 3,
            (false, false) => 2,
            (true, true) => 1,
            (true, false) => 0,
        }
    }
}

/// A command comes to an end whatever the adapter replies: it takes four
/// requests at most, two for a token and two for the command.
pub proof fn law_exchange_ends(client: Client, ex: ExchangeView, reply: Reply)
    ensures
        ({
            let (_, after, step) = client.stepped(ex, reply);
            step is Send ==> after.requests_left() < ex.requests_left()
        }),
{
}

/// A refused token is dropped, fetched anew and the command sent once more, with
/// the new token; refused again, the command is answered with the refusal.
pub proof fn law_refused_once(client: Client, ex: ExchangeView, set_cookie: Option<String>)
    requires
        !ex.fetching,
    ensures
        ({
            let refusal = Reply::Ok(Head { status: 403, set_cookie });
            let (token, after, step) = client.stepped(ex, refusal);
            if ex.retried {
                step == StepView::Answered(403)
            } else {
                &&& token is None
                &&& after.retried
                &&& after.fetching
                &&& step == StepView::Send(client.token_request())
            }
        }),
{
}

/// Once a token was fetched it is kept: the command goes out with it, and so does
/// the next, without another request for a token.
pub proof fn law_token_kept(
    client: Client,
    ex: ExchangeView,
    head: Head,
    after: Client,
    path: Seq<char>,
    body: Seq<char>,
)
    requires
        ex.fetching,
        is_success(head.status),
        head.set_cookie is Some,
        token_of(head.set_cookie->0@) is Some,
        after.same_but_token(client),
        after.token() == client.stepped(ex, Reply::Ok(head)).0,
    ensures
        ({
            let token = token_of(head.set_cookie->0@)->0;
            &&& client.stepped(ex, Reply::Ok(head)).2 == StepView::Send(
                client.command_request(ex.path, ex.body, token),
            )
            &&& after.begun(path, body).1 == client.command_request(path, body, token)
        }),
{
}

impl Client {
    /// An exchange carried to its end: `sent` is all that was sent so far, the
    /// reply to its last request comes next, and `replies` are the replies in the
    /// order of the requests. Gives the token that is kept then and all that was
    /// sent.
    pub open spec fn carried_out(
        self,
        kept: Option<Seq<char>>,
        ex: ExchangeView,
        sent: Seq<RequestView>,
        replies: spec_fn(int) -> Reply,
    ) -> (Option<Seq<char>>, Seq<RequestView>)
        decreases ex.requests_left(),
    {
        let (token, after, step) = self.stepped_with(kept, ex, replies(sent.len() - 1));
        match step {
            StepView::Send(request) => self.carried_out(token, after, sent.push(request), replies),
            _ => (token, sent),
        }
    }

    /// Commands sent one after the other, each a path and a body: the token that
    /// is kept then and all that was sent.
    pub open spec fn commanded(
        self,
        commands: Seq<(Seq<char>, Seq<char>)>,
        replies: spec_fn(int) -> Reply,
    ) -> (Option<Seq<char>>, Seq<RequestView>)
        decreases commands.len(),
    {
        if commands.len() == 0 {
            (self.token(), Seq::empty())
        } else {
            let (kept, sent) = self.commanded(commands.drop_last(), replies);
            let (path, body) = commands.last();
            let (ex, request) = self.begun_with(kept, path, body);
            self.carried_out(kept, ex, sent.push(request), replies)
        }
    }

    /// One request for a token, and then each of the commands once, with that
    /// token.
    pub open spec fn one_fetch(
        self,
        commands: Seq<(Seq<char>, Seq<char>)>,
        token: Seq<char>,
    ) -> Seq<RequestView> {
        seq![self.token_request()] + Seq::new(
            commands.len(),
            |i: int| self.command_request(commands[i].0, commands[i].1, token),
        )
    }
}

/// However many commands a fresh client sends, it asks for a token once, before
/// the first of them, and sends every command once and with that token, as long
/// as the token is given and no command is refused.
pub proof fn law_token_fetched_once(
    client: Client,
    commands: Seq<(Seq<char>, Seq<char>)>,
    replies: spec_fn(int) -> Reply,
    head: Head,
)
    requires
        client.csrf is None,
        commands.len() > 0,
        replies(0) == Reply::Ok(head),
        is_success(head.status),
        head.set_cookie is Some,
        token_of(head.set_cookie->0@) is Some,
        forall|i: int|
            0 < i ==> (#[trigger] replies(i) matches Reply::Ok(given) ==> given.status != 403),
    ensures
        ({
            let token = token_of(head.set_cookie->0@)->0;
            client.commanded(commands, replies) == (
                Some(token),
                client.one_fetch(commands, token),
            )
        }),
    decreases commands.len(),
{
    let token = token_of(head.set_cookie->0@)->0;
    let before = commands.drop_last();
    let (path, body) = commands.last();
    let command = client.command_request(path, body, token);
    let (kept, sent) = client.commanded(before, replies);
    let (ex, request) = client.begun_with(kept, path, body);
    reveal_with_fuel(Client::carried_out, 3);
    if before.len() == 0 {
        assert(sent.push(request).len() - 1 == 0);
        assert(sent.push(request).push(command).len() - 1 == 1);
        assert(sent.push(request).push(command) =~= client.one_fetch(commands, token));
    } else {
        law_token_fetched_once(client, before, replies, head);
        assert(sent.len() == commands.len());
        assert(sent.push(request) =~= client.one_fetch(commands, token));
    }
}

/// Whatever is sent, is sent with the credentials, and a command carries its
/// token both as a header and as a cookie.
pub proof fn law_requests_carry_credentials(
    client: Client,
    path: Seq<char>,
    body: Seq<char>,
    ex: ExchangeView,
    reply: Reply,
)
    ensures
        client.begun(path, body).1.creds == client.creds@,
        client.stepped(ex, reply).2 matches StepView::Send(request) ==> {
            &&& request.creds == client.creds@
            &&& request.method is Post ==> request.headers.len() == 3 && request.headers[2].1
                == "csrf_token="@ + request.headers[1].1
        },
{
}

/// A rejection of the credentials is an error of a reboot, and so is an adapter
/// that was not reached; a reply that fails to come after the command was sent
/// is none.
pub proof fn law_reboot_outcomes(timed_out: bool, text: Seq<char>)
    ensures
        reboot_step_of(StepView::Answered(401)) == RebootStepView::Failed(ErrorView::Auth),
        reboot_step_of(StepView::Lost(true, timed_out, text)) == RebootStepView::Failed(
            ErrorView::Http(text),
        ),
        reboot_step_of(StepView::Lost(false, timed_out, text)) == RebootStepView::Rebooting,
{
}

/// The token is what a cookie header sets it to, whether the header ends there or
/// attributes follow.
pub proof fn law_token_read_from_cookie(token: Seq<char>, attributes: Seq<char>)
    requires
        forall|i: int|
            0 <= i < token.len() ==> !is_white_space(#[trigger] token[i]) && token[i] != ';',
    ensures
        token_of(token_prefix() + token) == Some(token),
        token_of((token_prefix() + token).push(';') + attributes) == Some(token),
{
    reveal_strlit("csrf_token=");
    let cut = Cut::At(';').pred();
    let part = token_prefix() + token;
    assert forall|i: int| 0 <= i < part.len() implies !cut(#[trigger] part[i]) by {
        if i >= token_prefix().len() {
            assert(part[i] == token[i - token_prefix().len()]);
        }
    }
    assert(!is_white_space(part[0]));
    assert(!is_white_space(part.last())) by {
        if token.len() > 0 {
            assert(part.last() == token[token.len() - 1]);
        }
    }
    assert(trim(part) == part);
    assert(token_prefix().is_prefix_of(part));
    assert(part.skip(token_prefix().len() as int) =~= token);
    lemma_split_whole(part, cut);
    lemma_split_first(part, ';', attributes, cut);
}

} // verus!
