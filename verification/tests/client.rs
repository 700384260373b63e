use gocoax::client::{
    extract_csrf_token, read_body, read_step, reboot_step, Client, ClientOpts, Exchange, Failure,
    Head, Method, ReadStep, RebootStep, Reply, Request, Step, EMPTY_BODY, ZERO_ARG_BODY,
};
use gocoax::config::ResolvedCreds;
use gocoax::ms::ip_addr;
use gocoax::Error;

/// Words for a text that is refused.
fn refused(text: &str) -> String {
    format!("refused {text}")
}

fn client() -> Client {
    Client::new(
        "10.0.0.1:80",
        ResolvedCreds { username: "admin".into(), password: "g".into() },
        ClientOpts { request_timeout_secs: 2, connect_timeout_secs: 1, verbose: false },
    )
}

fn head(status: u16, cookie: Option<&str>) -> Reply {
    Ok(Head { status, set_cookie: cookie.map(|c| c.to_string()) })
}

fn lost(connect: bool, timed_out: bool) -> Reply {
    Err(Failure { connect, timed_out, text: "gone".into() })
}

fn sent(step: Step) -> Request {
    match step {
        Step::Send(request) => request,
        _ => panic!("nothing to send"),
    }
}

/// Answers with a token first, then with each of `replies` in turn, and gives the
/// requests that were sent before each reply and the last step.
fn converse(client: &mut Client, begun: (Exchange, Request), replies: Vec<Reply>) -> (Vec<Request>, Step) {
    let (mut ex, request) = begun;
    let mut requests = vec![request];
    let mut last = None;
    for reply in replies {
        let step = client.step(&mut ex, reply);
        if let Step::Send(request) = &step {
            requests.push(request.clone());
        }
        last = Some(step);
    }
    (requests, last.unwrap())
}

#[test]
fn extracts_token_from_set_cookie() {
    assert_eq!(
        extract_csrf_token("csrf_token=ABC123; SameSite=Strict"),
        Some("ABC123".to_string())
    );
    assert_eq!(extract_csrf_token("other=1; csrf_token=XYZ"), Some("XYZ".to_string()));
    assert_eq!(extract_csrf_token("other=1"), None);
}

#[test]
fn the_first_token_counts() {
    assert_eq!(extract_csrf_token(" csrf_token=a ;csrf_token=b"), Some("a".to_string()));
    assert_eq!(extract_csrf_token("csrf_token="), Some(String::new()));
    assert_eq!(extract_csrf_token(""), None);
}

#[test]
fn read_fetches_csrf_then_posts() {
    let mut client = client();
    let begun = client.read(ip_addr(), r#"{"data":[0]}"#);
    let (requests, step) = converse(
        &mut client,
        begun,
        vec![head(200, Some("csrf_token=ABC123; SameSite=Strict")), head(200, None)],
    );
    assert_eq!(requests.len(), 2);
    assert_eq!(requests[0].method, Method::Get);
    assert_eq!(requests[0].url, "http://10.0.0.1:80/index.html");
    assert_eq!(requests[1].method, Method::Post);
    assert_eq!(requests[1].url, "http://10.0.0.1:80/ms/1/0x20b/GET");
    assert_eq!(requests[1].body, ZERO_ARG_BODY);
    assert_eq!(
        requests[1].headers,
        vec![
            ("Content-Type".to_string(), "application/x-www-form-urlencoded".to_string()),
            ("X-CSRF-TOKEN".to_string(), "ABC123".to_string()),
            ("Cookie".to_string(), "csrf_token=ABC123".to_string()),
        ]
    );
    assert!(matches!(read_step(step), ReadStep::ReadBody));
    let words = read_body(Ok(r#"{"data":["0xc00002fa"]}"#), &refused).unwrap();
    assert_eq!(words, vec![0xc00002fa]);
}

#[test]
fn auth_failure_maps_to_auth_error() {
    let mut client = client();
    let begun = client.read(ip_addr(), r#"{"data":[0]}"#);
    let (_, step) = converse(
        &mut client,
        begun,
        vec![head(200, Some("csrf_token=X; SameSite=Strict")), head(401, None)],
    );
    assert!(matches!(read_step(step), ReadStep::Failed(Error::Auth)));
}

#[test]
fn refetches_csrf_on_403_then_succeeds() {
    let mut client = client();
    let begun = client.read(ip_addr(), r#"{"data":[0]}"#);
    let (requests, step) = converse(
        &mut client,
        begun,
        vec![
            head(200, Some("csrf_token=T; SameSite=Strict")),
            head(403, None),
            head(200, Some("csrf_token=U; SameSite=Strict")),
            head(200, None),
        ],
    );
    let posts: Vec<&Request> = requests.iter().filter(|r| r.method == Method::Post).collect();
    assert_eq!(posts.len(), 2);
    assert_eq!(posts[0].headers[1].1, "T");
    assert_eq!(posts[1].headers[1].1, "U");
    assert_eq!(client.csrf.as_deref(), Some("U"));
    assert!(matches!(read_step(step), ReadStep::ReadBody));
    assert_eq!(read_body(Ok(r#"{"data":["0x1"]}"#), &refused).unwrap(), vec![1]);
}

#[test]
fn a_second_refusal_is_an_error() {
    let mut client = client();
    let begun = client.read(ip_addr(), EMPTY_BODY);
    let (requests, step) = converse(
        &mut client,
        begun,
        vec![
            head(200, Some("csrf_token=T")),
            head(403, None),
            head(200, Some("csrf_token=U")),
            head(403, None),
        ],
    );
    assert_eq!(requests.len(), 4);
    assert!(matches!(read_step(step), ReadStep::Failed(Error::Csrf)));
}

#[test]
fn a_kept_token_is_used_again() {
    let mut client = client();
    client.csrf = Some("KEPT".to_string());
    let (_, request) = client.read(ip_addr(), EMPTY_BODY);
    assert_eq!(request.method, Method::Post);
    assert_eq!(request.headers[2].1, "csrf_token=KEPT");
    assert_eq!(request.creds, ResolvedCreds { username: "admin".into(), password: "g".into() });
}

#[test]
fn a_token_may_not_be_had() {
    let failed = |reply: Reply| {
        let mut client = client();
        let (mut ex, _) = client.read(ip_addr(), EMPTY_BODY);
        match client.step(&mut ex, reply) {
            Step::Failed(e) => e,
            _ => panic!("no failure"),
        }
    };
    assert!(matches!(failed(head(200, None)), Error::Csrf));
    assert!(matches!(failed(head(200, Some("other=1"))), Error::Csrf));
    assert!(matches!(failed(head(403, None)), Error::Csrf));
    assert!(matches!(failed(head(401, None)), Error::Auth));
    assert!(matches!(failed(head(500, None)), Error::HttpStatus(500)));
    assert!(matches!(failed(lost(false, true)), Error::Timeout));
    assert!(matches!(failed(lost(true, false)), Error::Http(text) if text == "gone"));
}

#[test]
fn lost_reads_are_errors() {
    let mut client = client();
    client.csrf = Some("T".to_string());
    let (mut ex, _) = client.read(ip_addr(), EMPTY_BODY);
    let step = client.step(&mut ex, lost(false, true));
    assert!(matches!(read_step(step), ReadStep::Failed(Error::Timeout)));
    let step = client.step(&mut ex, lost(false, false));
    assert!(matches!(read_step(step), ReadStep::Failed(Error::Http(_))));
    let failure = Failure { connect: false, timed_out: true, text: "slow".into() };
    assert!(matches!(read_body(Err(failure), &refused), Err(Error::Timeout)));
}

#[test]
fn reboot_ok_on_2xx() {
    let mut client = client();
    let begun = client.reboot();
    let (requests, step) =
        converse(&mut client, begun, vec![head(200, Some("csrf_token=X; SameSite=Strict")), head(200, None)]);
    assert_eq!(requests[1].url, "http://10.0.0.1:80/ms/1/0xb00");
    assert_eq!(requests[1].body, r#"{"data":[]}"#);
    assert!(matches!(reboot_step(step), RebootStep::Rebooting));
}

#[test]
fn reboot_ok_when_device_drops_after_send() {
    let mut client = client();
    let begun = client.reboot();
    let (_, step) =
        converse(&mut client, begun, vec![head(200, Some("csrf_token=X; SameSite=Strict")), lost(false, true)]);
    assert!(
        matches!(reboot_step(step), RebootStep::Rebooting),
        "post-send timeout should be treated as reboot success"
    );
}

#[test]
fn reboot_err_on_auth_failure() {
    let mut client = client();
    let begun = client.reboot();
    let (_, step) =
        converse(&mut client, begun, vec![head(200, Some("csrf_token=X; SameSite=Strict")), head(401, None)]);
    assert!(matches!(reboot_step(step), RebootStep::Failed(Error::Auth)));
}

#[test]
fn reboot_err_when_device_is_not_reached() {
    let mut client = client();
    client.csrf = Some("X".to_string());
    let (mut ex, request) = client.reboot();
    assert_eq!(request.method, Method::Post);
    let step = client.step(&mut ex, lost(true, true));
    assert!(matches!(reboot_step(step), RebootStep::Failed(Error::Http(_))));
}

#[test]
fn reboot_retries_a_refused_token_once() {
    let mut client = client();
    client.csrf = Some("OLD".to_string());
    let (mut ex, _) = client.reboot();
    let request = sent(client.step(&mut ex, head(403, None)));
    assert_eq!(request.method, Method::Get);
    assert_eq!(client.csrf, None);
    let request = sent(client.step(&mut ex, head(200, Some("csrf_token=NEW"))));
    assert_eq!(request.headers[1].1, "NEW");
    let step = client.step(&mut ex, head(403, None));
    assert!(matches!(reboot_step(step), RebootStep::Failed(Error::Csrf)));
}

#[test]
fn a_token_is_fetched_once_for_many_reads() {
    let mut client = client();
    let mut all = vec![];
    for i in 0..3 {
        let begun = client.read(ip_addr(), ZERO_ARG_BODY);
        let replies = if i == 0 {
            vec![head(200, Some("csrf_token=T")), head(200, None)]
        } else {
            vec![head(200, None)]
        };
        let (requests, _) = converse(&mut client, begun, replies);
        all.extend(requests);
    }
    let methods: Vec<Method> = all.iter().map(|r| r.method).collect();
    assert_eq!(methods, vec![Method::Get, Method::Post, Method::Post, Method::Post]);
    for request in &all[1..] {
        assert_eq!(request.url, "http://10.0.0.1:80/ms/1/0x20b/GET");
        assert_eq!(request.headers[1], ("X-CSRF-TOKEN".to_string(), "T".to_string()));
        assert_eq!(request.headers[2], ("Cookie".to_string(), "csrf_token=T".to_string()));
        assert_eq!(request.creds.username, "admin");
    }
}
