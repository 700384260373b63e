//! What goes to an adapter and what is made of its replies.

use crate::client::{
    first_token, read_step_of, reboot_step_of, token_of, token_prefix, Client, ClientOpts,
    ExchangeView, Failure, Method, ReadStepView, RebootStepView, Reply, RequestView, StepView,
};
use crate::config::ResolvedCreds;
use crate::error::{error_message, ErrorView};
use crate::laws::network::lemma_paths;
use crate::text::{decimal, lemma_split_join, lemma_split_whole, split, trim, Cut};
use vstd::prelude::*;

verus! {

/// Whether a request asks the adapter's page for a token.
pub open spec fn asks_for_token(client: Client, request: RequestView) -> bool {
    &&& request.method == Method::Get
    &&& request.url == client.base_url@ + "/index.html"@
    &&& request.creds.username == client.creds.username@
    &&& request.creds.password == client.creds.password@
    &&& request.headers.len() == 0
    &&& request.body.len() == 0
}

/// Whether a request posts a command with a token.
pub open spec fn posts(
    client: Client,
    request: RequestView,
    path: Seq<char>,
    body: Seq<char>,
    token: Seq<char>,
) -> bool {
    &&& request.method == Method::Post
    &&& request.url == client.base_url@ + path
    &&& request.creds.username == client.creds.username@
    &&& request.creds.password == client.creds.password@
    &&& request.headers.len() == 3
    &&& request.headers[0] == ("Content-Type"@, "application/x-www-form-urlencoded"@)
    &&& request.headers[1] == ("X-CSRF-TOKEN"@, token)
    &&& request.headers[2] == ("Cookie"@, "csrf_token="@ + token)
    &&& request.body == body
}

/// A command begins with its post where a token is kept, and with the request for a
/// token where none is.
pub proof fn law_command_begins(client: Client, path: Seq<char>, body: Seq<char>)
    ensures
        ({
            let (ex, request) = client.begun(path, body);
            &&& ex.path == path && ex.body == body && !ex.retried
            &&& client.csrf matches Some(token) ==> !ex.fetching && posts(
                client,
                request,
                path,
                body,
                token@,
            )
            &&& client.csrf is None ==> ex.fetching && asks_for_token(client, request)
        }),
{
}

/// What a failed request comes to: a timeout is told from other failures.
pub open spec fn lost(failure: Failure) -> ErrorView {
    if failure.timed_out {
        ErrorView::Timeout
    } else {
        ErrorView::Http(failure.text@)
    }
}

/// What a status that is no success comes to: refused credentials and a refused token
/// are told from other statuses.
pub open spec fn refused(status: u16) -> ErrorView {
    if status == 401 {
        ErrorView::Auth
    } else if status == 403 {
        ErrorView::Csrf
    } else {
        ErrorView::HttpStatus(status)
    }
}

/// The reply to a request for a token: a cookie with a token under a status from 200 up
/// to 299 has the token kept and the command posted with it; anything else fails the
/// command and leaves the token that was kept.
pub proof fn law_reply_to_token_request(client: Client, ex: ExchangeView, reply: Reply)
    requires
        ex.fetching,
    ensures
        ({
            let (kept, after, step) = client.stepped(ex, reply);
            let token = match reply {
                Ok(head) => if 200 <= head.status <= 299 {
                    match head.set_cookie {
                        Some(cookie) => token_of(cookie@),
                        None => None,
                    }
                } else {
                    None
                },
                Err(_) => None,
            };
            &&& after.path == ex.path && after.body == ex.body && after.retried == ex.retried
            &&& token matches Some(t) ==> {
                &&& kept == Some(t)
                &&& !after.fetching
                &&& step matches StepView::Send(request)
                &&& posts(client, request, ex.path, ex.body, t)
            }
            &&& token is None ==> {
                let e = match reply {
                    Err(failure) => lost(failure),
                    Ok(head) => if 200 <= head.status <= 299 {
                        ErrorView::Csrf
                    } else {
                        refused(head.status)
                    },
                };
                &&& kept == client.token()
                &&& step == StepView::Failed(e)
                &&& read_step_of(step) == ReadStepView::Failed(e)
                &&& reboot_step_of(step) == RebootStepView::Failed(e)
            }
        }),
{
}

/// The reply to a command: the first refusal of the token drops the token and asks for
/// another; a status from 200 up to 299 is success, of a read with a body to read; any
/// other status fails. A read fails without a reply. A reboot fails without a reply
/// only where the adapter was not reached.
pub proof fn law_reply_to_command(client: Client, ex: ExchangeView, reply: Reply)
    requires
        !ex.fetching,
    ensures
        ({
            let (kept, after, step) = client.stepped(ex, reply);
            &&& after.path == ex.path && after.body == ex.body
            &&& match reply {
                Ok(head) => if head.status == 403 && !ex.retried {
                    &&& kept is None
                    &&& after.retried && after.fetching
                    &&& step matches StepView::Send(request)
                    &&& asks_for_token(client, request)
                    &&& read_step_of(step) == ReadStepView::Send(request)
                    &&& reboot_step_of(step) == RebootStepView::Send(request)
                } else {
                    &&& kept == client.token()
                    &&& after.retried == ex.retried && !after.fetching
                    &&& if 200 <= head.status <= 299 {
                        read_step_of(step) == ReadStepView::ReadBody && reboot_step_of(step)
                            == RebootStepView::Rebooting
                    } else {
                        read_step_of(step) == ReadStepView::Failed(refused(head.status))
                            && reboot_step_of(step) == RebootStepView::Failed(
                            refused(head.status),
                        )
                    }
                },
                Err(failure) => {
                    &&& kept == client.token()
                    &&& read_step_of(step) == ReadStepView::Failed(lost(failure))
                    &&& reboot_step_of(step) == if failure.connect {
                        RebootStepView::Failed(ErrorView::Http(failure.text@))
                    } else {
                        RebootStepView::Rebooting
                    }
                },
            }
        }),
{
}

/// A cookie header is read part by part, from one semicolon to the next: the first
/// part that, white space around it aside, begins with the token's name sets the
/// token to what follows the name.
pub proof fn law_token_part_by_part(part: Seq<char>, rest: Seq<char>)
    requires
        !part.contains(';'),
    ensures
        ({
            let name = seq!['c', 's', 'r', 'f', '_', 't', 'o', 'k', 'e', 'n', '='];
            let inner = trim(part);
            let sets = inner.len() >= 11 && inner.take(11) == name;
            &&& token_of(part) == if sets {
                Some(inner.skip(11))
            } else {
                None
            }
            &&& token_of(part.push(';') + rest) == if sets {
                Some(inner.skip(11))
            } else {
                token_of(rest)
            }
        }),
{
    let name = seq!['c', 's', 'r', 'f', '_', 't', 'o', 'k', 'e', 'n', '='];
    let inner = trim(part);
    let cut = Cut::At(';').pred();
    reveal_strlit("csrf_token=");
    assert(token_prefix() =~= name);
    if inner.len() >= 11 {
        assert(name.is_prefix_of(inner) <==> inner.take(11) =~= name);
    }
    assert forall|i: int| 0 <= i < part.len() implies !cut(#[trigger] part[i]) by {
        assert(part.contains(part[i]));
    }
    lemma_split_whole(part, cut);
    lemma_split_join(part, ';', rest, cut);
    let one = seq![part];
    let all = one + split(rest, cut);
    assert(one.skip(1) =~= Seq::empty());
    assert(first_token(one.skip(1)) is None);
    assert(one[0] == part);
    assert(all[0] == part);
    assert(all.skip(1) =~= split(rest, cut));
}

/// Errors of different kinds are told in different words, and each tells what it
/// carries.
pub proof fn law_messages(text: Seq<char>, cmd: Seq<char>, code: u16)
    ensures
        error_message(ErrorView::Http(text)) == "http error: "@ + text,
        error_message(ErrorView::Timeout) == "request timed out"@,
        error_message(ErrorView::Auth) == "authentication failed"@,
        error_message(ErrorView::Csrf) == "csrf token rejected"@,
        error_message(ErrorView::HttpStatus(code)) == "unexpected http status "@ + decimal(
            code as nat,
        ),
        error_message(ErrorView::Decode { cmd, reason: text }) == "decode "@ + cmd + ": "@ + text,
        error_message(ErrorView::Config(text)) == "config error: "@ + text,
{
}

/// A client begins by asking the adapter's own page for a token, whatever it is to do,
/// and sends to the adapter alone, with the credentials and in the times that it was
/// given.
pub proof fn law_fresh_client(
    client: Client,
    host: Seq<char>,
    creds: ResolvedCreds,
    opts: ClientOpts,
    path: Seq<char>,
    body: Seq<char>,
    token: Seq<char>,
)
    requires
        client.is_fresh(host, creds, opts),
    ensures
        client.begun(path, body).1.method == Method::Get,
        client.begun(path, body).1.url == "http://"@ + host + "/index.html"@,
        client.command_request(path, body, token).url == "http://"@ + host + path,
        client.begun(path, body).1.creds == creds@,
        client.opts == opts,
{
}

/// A reboot is the command at `/ms/1/0xb00`, without arguments.
pub proof fn law_reboot_request(client: Client)
    ensures
        ({
            let (ex, request) = client.reboot_begun();
            &&& ex.path == "/ms/1/0xb00"@
            &&& ex.body == "{\"data\":[]}"@
            &&& client.csrf matches Some(token) ==> posts(
                client,
                request,
                "/ms/1/0xb00"@,
                "{\"data\":[]}"@,
                token@,
            )
            &&& client.csrf is None ==> asks_for_token(client, request)
        }),
{
    lemma_paths();
}

/// A step changes the token of a client and nothing else of it: the next requests go to
/// the same adapter, with the same credentials and in the same times.
pub proof fn law_only_the_token_changes(
    before: Client,
    after: Client,
    path: Seq<char>,
    body: Seq<char>,
    token: Seq<char>,
)
    requires
        after.same_but_token(before),
    ensures
        after.base_url == before.base_url,
        after.creds == before.creds,
        after.opts == before.opts,
        after.token_request() == before.token_request(),
        after.command_request(path, body, token) == before.command_request(path, body, token),
{
}

} // verus!
