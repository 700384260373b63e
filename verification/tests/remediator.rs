use gocoax::config::Config;
use gocoax::remediator::config::{RemediatorConfig, Rule};
use gocoax::remediator::metrics::{render, MetricsSnapshot};
use gocoax::remediator::poller::{Action, AppState, Event, Moment, Poll};
use gocoax::remediator::prom::{
    parse_query_devices, query_reply, query_url, select_devices, QueryResponse,
};
use gocoax::remediator::state::{
    cooldown_left, day_bucket, decide, record_reboot, Decision, DeviceState, Limits,
};

/// Words for a text that is refused.
fn refused(text: &str) -> String {
    format!("refused {text}")
}

fn secs(n: u64) -> u64 {
    n * 1_000_000_000
}

fn limits() -> Limits {
    Limits { cooldown_secs: 1800, max_reboots_per_day: 4 }
}

#[test]
fn fresh_device_may_reboot() {
    let st = DeviceState::default();
    assert_eq!(decide(&st, &limits(), secs(1_000_000), "1"), Decision::Reboot);
}

#[test]
fn within_cooldown_is_blocked() {
    let mut st = DeviceState::default();
    record_reboot(&mut st, secs(1_000_000), "1");
    assert_eq!(decide(&st, &limits(), secs(1_000_060), "1"), Decision::Cooldown);
}

#[test]
fn cooldown_elapsed_allows_reboot_again() {
    let mut st = DeviceState::default();
    record_reboot(&mut st, secs(1_000_000), "1");
    assert_eq!(decide(&st, &limits(), secs(1_001_800), "1"), Decision::Reboot);
}

#[test]
fn max_reboots_per_day_trips_circuit_breaker() {
    let mut st = DeviceState::default();
    for i in 0..4 {
        record_reboot(&mut st, secs(1_000_000 + i * 10_000), "1");
    }
    assert_eq!(st.reboots_today, 4);
    assert_eq!(decide(&st, &limits(), secs(1_100_000), "1"), Decision::CircuitOpen);
}

#[test]
fn circuit_breaker_takes_precedence_over_cooldown() {
    let mut st = DeviceState::default();
    for i in 0..4 {
        record_reboot(&mut st, secs(1_000_000 + i * 10), "1");
    }
    assert_eq!(decide(&st, &limits(), secs(1_000_031), "1"), Decision::CircuitOpen);
}

#[test]
fn new_day_resets_daily_count() {
    let mut st = DeviceState::default();
    for i in 0..4 {
        record_reboot(&mut st, secs(1_000_000 + i * 10_000), "day-a");
    }
    assert_eq!(decide(&st, &limits(), secs(1_000_030), "day-a"), Decision::CircuitOpen);
    assert_eq!(decide(&st, &limits(), secs(2_000_000), "day-b"), Decision::Reboot);
    record_reboot(&mut st, secs(2_000_000), "day-b");
    assert_eq!(st.reboots_today, 1);
}

#[test]
fn a_clock_that_goes_back_keeps_the_cooldown() {
    let mut st = DeviceState::default();
    record_reboot(&mut st, secs(1_000_000), "1");
    assert_eq!(decide(&st, &limits(), 0, "1"), Decision::Cooldown);
    let endless = Limits { cooldown_secs: u64::MAX, max_reboots_per_day: 4 };
    assert_eq!(decide(&st, &endless, u64::MAX, "1"), Decision::Cooldown);
    assert_eq!(cooldown_left(&st, &limits(), secs(1_000_660)), secs(1140) as u128);
    assert_eq!(cooldown_left(&st, &limits(), secs(2_000_000)), 0);
    assert_eq!(cooldown_left(&DeviceState::default(), &limits(), 0), 0);
}

#[test]
fn days_are_counted_from_the_epoch() {
    assert_eq!(day_bucket(0), "0");
    assert_eq!(day_bucket(86_399), "0");
    assert_eq!(day_bucket(86_400), "1");
    assert_eq!(day_bucket(1_700_000_000), "19675");
}

#[test]
fn extracts_deduped_device_labels_and_skips_missing_ones() {
    let json = r#"
        {
          "status": "success",
          "data": {
            "resultType": "vector",
            "result": [
              {"metric": {"__name__": "gocoax_up", "device": "ff"}, "value": [1690000000, "0"]},
              {"metric": {"__name__": "gocoax_up", "device": "gg"}, "value": [1690000000, "0"]},
              {"metric": {"__name__": "gocoax_up"}, "value": [1690000000, "0"]},
              {"metric": {"__name__": "gocoax_up", "device": "ff"}, "value": [1690000060, "0"]}
            ]
          }
        }
        "#;
    let devices = parse_query_devices(json, &refused).unwrap();
    assert_eq!(devices, vec!["ff".to_string(), "gg".to_string()]);
}

#[test]
fn empty_result_vector_yields_empty_devices() {
    let json = r#"{"status":"success","data":{"resultType":"vector","result":[]}}"#;
    assert_eq!(parse_query_devices(json, &refused).unwrap(), Vec::<String>::new());
}

#[test]
fn error_status_is_an_error() {
    let json = r#"{"status":"error","errorType":"bad_data","error":"parse error"}"#;
    assert!(parse_query_devices(json, &refused).is_err());
    assert_eq!(
        parse_query_devices(json, &refused).unwrap_err(),
        "prometheus query returned status=\"error\""
    );
}

#[test]
fn invalid_json_is_an_error() {
    assert!(parse_query_devices("not json", &refused).is_err());
}

#[test]
fn answers_may_lack_parts() {
    let missing = "prometheus response missing \"data\"";
    assert_eq!(parse_query_devices(r#"{"status":"success"}"#, &refused).unwrap_err(), missing);
    assert_eq!(parse_query_devices(r#"{"status":"success","data":null}"#, &refused).unwrap_err(), missing);
    assert!(parse_query_devices(r#"{"status":"success","data":{}}"#, &refused).unwrap().is_empty());
    assert!(parse_query_devices(r#"{"status":"success","data":{"result":[{}]}}"#, &refused)
        .unwrap()
        .is_empty());
    assert!(parse_query_devices(r#"{"data":{}}"#, &refused)
        .unwrap_err()
        .starts_with("invalid prometheus response json: refused {"));
    let bad_label = r#"{"status":"error","data":{"result":[{"metric":{"x":1}}]}}"#;
    assert!(parse_query_devices(bad_label, &refused).unwrap_err().starts_with("invalid prometheus response json: refused "));
}

#[test]
fn fields_come_once_and_the_last_label_counts() {
    let labelled = |labels: &str| {
        let body = r#"{"status":"success","data":{"result":[{"metric":{"#.to_string();
        parse_query_devices(&(body + labels + "}}]}}"), &refused)
    };
    assert_eq!(labelled(r#""device":"a","device":"b""#).unwrap(), vec!["b".to_string()]);
    assert!(labelled(r#""device":1,"device":"b""#).is_err());
    let twice = r#"{"status":"error","status":"success","data":{}}"#;
    assert!(parse_query_devices(twice, &refused).unwrap_err().contains("json: refused {"));
    let twice = r#"{"status":"success","data":{"result":[],"result":[]}}"#;
    assert!(parse_query_devices(twice, &refused).unwrap_err().contains("json: refused {"));
    let twice = r#"{"status":"success","data":{"result":[{"metric":{},"metric":{}}]}}"#;
    assert!(parse_query_devices(twice, &refused).unwrap_err().contains("json: refused {"));
}

#[test]
fn selection_takes_each_device_once() {
    let resp = QueryResponse {
        status: "success".into(),
        data: Some(vec![Some("b".into()), None, Some("a".into()), Some("b".into())]),
    };
    assert_eq!(select_devices(&resp).unwrap(), vec!["b".to_string(), "a".to_string()]);
}

#[test]
fn queries_have_their_place_and_their_failures() {
    assert_eq!(query_url("http://p:9090//"), "http://p:9090/api/v1/query");
    assert_eq!(query_url("http://p:9090"), "http://p:9090/api/v1/query");
    assert_eq!(
        query_reply(404, "404 Not Found", "nope", &refused).unwrap_err(),
        "prometheus http status 404 Not Found: nope"
    );
    assert!(query_reply(200, "200 OK", r#"{"status":"success","data":{}}"#, &refused).unwrap().is_empty());
}

#[test]
fn up_line_always_present_even_for_empty_snapshot() {
    let out = render(&MetricsSnapshot::default());
    assert!(out.contains("gocoax_remediator_up 1"));
    assert!(!out.contains("gocoax_remediator_reboots_total{"));
    assert!(!out.contains("gocoax_remediator_would_reboot_total{"));
    assert!(!out.contains("gocoax_remediator_last_reboot_timestamp_seconds{"));
    assert!(!out.contains("gocoax_remediator_circuit_open{"));
}

#[test]
fn one_reboot_renders_counter_and_timestamp_lines() {
    let snap = MetricsSnapshot {
        reboots_total: vec![("ff".to_string(), "unreachable".to_string(), 1)],
        would_reboot_total: vec![],
        reboot_failures_total: vec![],
        last_reboot_ts: vec![("ff".to_string(), 1_700_000_000.0f64.to_string())],
        circuit_open: vec![("ff".to_string(), false)],
    };
    let out = render(&snap);
    assert!(out.contains("gocoax_remediator_up 1"));
    assert!(out.contains("gocoax_remediator_reboots_total{device=\"ff\",reason=\"unreachable\"} 1"));
    assert!(out.contains("gocoax_remediator_last_reboot_timestamp_seconds{device=\"ff\"} 1700000000"));
    assert!(out.contains("gocoax_remediator_circuit_open{device=\"ff\"} 0"));
    assert!(!out.contains("gocoax_remediator_would_reboot_total{"));
}

#[test]
fn dry_run_would_reboot_and_open_circuit_render() {
    let snap = MetricsSnapshot {
        reboots_total: vec![],
        would_reboot_total: vec![("gg".to_string(), "link_down".to_string(), 3)],
        reboot_failures_total: vec![],
        last_reboot_ts: vec![],
        circuit_open: vec![("gg".to_string(), true)],
    };
    let out = render(&snap);
    assert!(out.contains("gocoax_remediator_would_reboot_total{device=\"gg\",reason=\"link_down\"} 3"));
    assert!(out.contains("gocoax_remediator_circuit_open{device=\"gg\"} 1"));
    assert!(!out.contains("gocoax_remediator_reboots_total{"));
}

#[test]
fn all_remediator_metrics_read_line_by_line() {
    let row = |n: u64| vec![("d".to_string(), "r\n".to_string(), n)];
    let out = render(&MetricsSnapshot {
        reboots_total: row(1),
        would_reboot_total: row(2),
        reboot_failures_total: row(3),
        last_reboot_ts: vec![("d".to_string(), "4".to_string())],
        circuit_open: vec![("d".to_string(), true)],
    });
    let expected = r##"# HELP gocoax_remediator_up Whether the remediator daemon is up (always 1 while serving).
# TYPE gocoax_remediator_up gauge
gocoax_remediator_up 1
# HELP gocoax_remediator_reboots_total Count of reboots performed, by device and triggering rule.
# TYPE gocoax_remediator_reboots_total counter
gocoax_remediator_reboots_total{device="d",reason="r\n"} 1
# HELP gocoax_remediator_would_reboot_total Count of reboots that dry_run suppressed, by device and triggering rule.
# TYPE gocoax_remediator_would_reboot_total counter
gocoax_remediator_would_reboot_total{device="d",reason="r\n"} 2
# HELP gocoax_remediator_reboot_failures_total Count of reboot attempts that failed, by device and triggering rule.
# TYPE gocoax_remediator_reboot_failures_total counter
gocoax_remediator_reboot_failures_total{device="d",reason="r\n"} 3
# HELP gocoax_remediator_last_reboot_timestamp_seconds Unix timestamp of the device's last reboot performed by this daemon.
# TYPE gocoax_remediator_last_reboot_timestamp_seconds gauge
gocoax_remediator_last_reboot_timestamp_seconds{device="d"} 4
# HELP gocoax_remediator_circuit_open Whether the circuit breaker has tripped for a device (1=open, no longer auto-rebooting).
# TYPE gocoax_remediator_circuit_open gauge
gocoax_remediator_circuit_open{device="d"} 1
"##;
    assert_eq!(out, expected);
}

fn cfg_with_device(name: &str) -> Config {
    let toml = format!(
        "username = \"admin\"\npassword = \"g\"\n\n[[device]]\nname = \"{name}\"\nhost = \"10.0.0.1:1\"\n"
    );
    Config::from_toml(&toml, &refused).unwrap()
}

fn rcfg(
    rules: Vec<Rule>,
    cooldown_secs: u64,
    max_reboots_per_day: u32,
    dry_run: bool,
) -> RemediatorConfig {
    RemediatorConfig {
        prometheus_url: "http://prometheus".into(),
        poll_interval_secs: 60,
        cooldown_secs,
        max_reboots_per_day,
        listen: "127.0.0.1:0".into(),
        dry_run,
        verbose: false,
        rule: rules,
    }
}

fn rule(name: &str) -> Rule {
    Rule { name: name.to_string(), expr: "up == 0".to_string() }
}

fn count_of(rows: &[(String, String, u64)], device: &str, reason: &str) -> u64 {
    rows.iter().find(|(d, r, _)| d == device && r == reason).map(|(_, _, c)| *c).unwrap_or(0)
}

fn is_circuit_open(rows: &[(String, bool)], device: &str) -> bool {
    rows.iter().find(|(d, _)| d == device).map(|(_, o)| *o).unwrap_or(false)
}

/// Runs one poll in which every rule matches `matched`, and every reboot comes to
/// `works`. Gives what was done.
fn poll_once(
    state: &mut AppState,
    now: u64,
    today: &str,
    matched: &[&str],
    works: bool,
    calls: &mut Vec<String>,
) -> Vec<Action> {
    let moment = Moment { nanos: secs(now), shown: (now as f64).to_string() };
    let mut poll = Poll::new(moment, today);
    let mut event = Event::Proceed;
    let mut actions = vec![];
    loop {
        assert!(state.has_room());
        let action = state.step(&mut poll, event);
        actions.push(action);
        event = match action {
            Action::Query { .. } => Event::Matched(matched.iter().map(|d| d.to_string()).collect()),
            Action::Reboot { device } => {
                calls.push(state.cfg.device[device].name.clone());
                if works {
                    Event::Rebooted
                } else {
                    Event::RebootFailed
                }
            }
            Action::Done => return actions,
            _ => Event::Proceed,
        };
    }
}

#[test]
fn dry_run_never_calls_rebooter_and_simulates_cooldown() {
    let mut state =
        AppState::new(cfg_with_device("ff"), rcfg(vec![rule("unreachable")], 1800, 4, true));
    let mut calls = vec![];

    poll_once(&mut state, 1_000_000, "1", &["ff"], true, &mut calls);
    assert!(calls.is_empty(), "dry_run must never invoke the real reboot action");
    assert_eq!(count_of(&state.snapshot().would_reboot_total, "ff", "unreachable"), 1);

    poll_once(&mut state, 1_000_060, "1", &["ff"], true, &mut calls);
    assert_eq!(count_of(&state.snapshot().would_reboot_total, "ff", "unreachable"), 1);
    assert!(calls.is_empty());
}

#[test]
fn two_rules_matching_same_device_only_acts_once() {
    let mut state = AppState::new(
        cfg_with_device("ff"),
        rcfg(vec![rule("unreachable"), rule("link_down")], 1800, 4, false),
    );
    let mut calls = vec![];

    poll_once(&mut state, 1_000_000, "1", &["ff"], true, &mut calls);

    assert_eq!(calls.len(), 1, "should only reboot once even though two rules matched");
    let snap = state.snapshot();
    let total: u64 = snap.reboots_total.iter().map(|(_, _, c)| c).sum();
    assert_eq!(total, 1);
}

#[test]
fn cooldown_across_polls_allows_exactly_one_reboot() {
    let mut state =
        AppState::new(cfg_with_device("ff"), rcfg(vec![rule("unreachable")], 1800, 4, false));
    let mut calls = vec![];

    poll_once(&mut state, 1_000_000, "1", &["ff"], true, &mut calls);
    let actions = poll_once(&mut state, 1_000_060, "1", &["ff"], true, &mut calls);

    assert_eq!(calls.len(), 1, "cooldown must block the second poll's reboot");
    assert_eq!(count_of(&state.snapshot().reboots_total, "ff", "unreachable"), 1);
    assert_eq!(actions[1], Action::Cooldown { left: secs(1740) as u128 });
}

#[test]
fn circuit_breaker_trips_after_max_reboots_per_day_and_reports_open() {
    let mut state =
        AppState::new(cfg_with_device("ff"), rcfg(vec![rule("unreachable")], 0, 2, false));
    let mut calls = vec![];

    poll_once(&mut state, 1_000_000, "1", &["ff"], true, &mut calls);
    poll_once(&mut state, 1_000_100, "1", &["ff"], true, &mut calls);
    assert_eq!(calls.len(), 2);
    assert!(!is_circuit_open(&state.snapshot().circuit_open, "ff"));

    poll_once(&mut state, 1_000_200, "1", &["ff"], true, &mut calls);
    assert_eq!(calls.len(), 2, "breaker must stop further reboots once tripped");
    assert!(is_circuit_open(&state.snapshot().circuit_open, "ff"));

    poll_once(&mut state, 1_100_000, "2", &["ff"], true, &mut calls);
    assert_eq!(calls.len(), 3);
    assert!(!is_circuit_open(&state.snapshot().circuit_open, "ff"));
}

#[test]
fn failed_reboot_counts_as_failure_not_success_and_still_respects_cooldown() {
    let mut state =
        AppState::new(cfg_with_device("ff"), rcfg(vec![rule("unreachable")], 1800, 4, false));
    let mut calls = vec![];

    poll_once(&mut state, 1_000_000, "1", &["ff"], false, &mut calls);
    let snap = state.snapshot();
    assert_eq!(count_of(&snap.reboot_failures_total, "ff", "unreachable"), 1);
    assert_eq!(count_of(&snap.reboots_total, "ff", "unreachable"), 0);
    assert!(
        snap.last_reboot_ts.is_empty(),
        "a failed attempt must not set the exposed last-reboot timestamp"
    );

    poll_once(&mut state, 1_000_060, "1", &["ff"], false, &mut calls);
    assert_eq!(calls.len(), 1);
    assert_eq!(count_of(&state.snapshot().reboot_failures_total, "ff", "unreachable"), 1);
}

#[test]
fn counters_begin_at_zero_for_every_device_and_rule() {
    let state = AppState::new(
        cfg_with_device("ff"),
        rcfg(vec![rule("unreachable"), rule("link_down")], 1800, 4, false),
    );
    let rows = vec![
        ("ff".to_string(), "unreachable".to_string(), 0),
        ("ff".to_string(), "link_down".to_string(), 0),
    ];
    let snap = state.snapshot();
    assert_eq!(snap.reboots_total, rows);
    assert_eq!(snap.would_reboot_total, rows);
    assert_eq!(snap.reboot_failures_total, rows);
    assert_eq!(snap.circuit_open, vec![("ff".to_string(), false)]);
    assert!(snap.last_reboot_ts.is_empty());
}

#[test]
fn a_poll_goes_through_its_rules_in_order() {
    let mut state = AppState::new(
        cfg_with_device("ff"),
        rcfg(vec![rule("a"), rule("b")], 1800, 4, false),
    );
    let mut calls = vec![];
    let actions = poll_once(&mut state, 1_000_000, "1", &["zz", "ff"], true, &mut calls);
    assert_eq!(
        actions,
        vec![
            Action::Query { rule: 0 },
            Action::Unknown,
            Action::Reboot { device: 0 },
            Action::Query { rule: 1 },
            Action::Unknown,
            Action::Handled,
            Action::Done,
        ]
    );
    assert_eq!(state.snapshot().last_reboot_ts, vec![("ff".to_string(), "1000000".to_string())]);
    assert_eq!(count_of(&state.snapshot().reboots_total, "ff", "a"), 1);
}

#[test]
fn a_failed_query_skips_its_rule() {
    let mut state =
        AppState::new(cfg_with_device("ff"), rcfg(vec![rule("a"), rule("b")], 1800, 4, true));
    let mut poll = Poll::new(Moment { nanos: 0, shown: "0".into() }, "0");
    assert_eq!(state.step(&mut poll, Event::Proceed), Action::Query { rule: 0 });
    assert_eq!(state.step(&mut poll, Event::QueryFailed), Action::Query { rule: 1 });
    assert_eq!(state.step(&mut poll, Event::Matched(vec!["ff".into()])), Action::WouldReboot);
    assert_eq!(state.step(&mut poll, Event::Proceed), Action::Done);
    assert_eq!(count_of(&state.snapshot().would_reboot_total, "ff", "b"), 1);
}

#[test]
fn counters_never_shrink() {
    let mut state =
        AppState::new(cfg_with_device("ff"), rcfg(vec![rule("a")], 0, 10, false));
    let mut calls = vec![];
    let mut seen = vec![];
    for (now, works) in [(1_000_000, true), (1_000_060, false), (1_000_120, true)] {
        poll_once(&mut state, now, "1", &["ff"], works, &mut calls);
        let snap = state.snapshot();
        seen.push((
            count_of(&snap.reboots_total, "ff", "a"),
            count_of(&snap.reboot_failures_total, "ff", "a"),
            count_of(&snap.would_reboot_total, "ff", "a"),
        ));
    }
    assert_eq!(seen, vec![(1, 0, 0), (1, 1, 0), (2, 1, 0)]);
}

/// The books that matter for what is done next.
fn cadence(state: &AppState) -> (Vec<(String, bool)>, Vec<(String, Option<u64>, u32)>) {
    let devices = state
        .inner
        .devices
        .rows
        .iter()
        .map(|(name, st)| (name.clone(), st.last_reboot_unix, st.reboots_today))
        .collect();
    (state.snapshot().circuit_open, devices)
}

#[test]
fn a_dry_run_keeps_the_rhythm_of_a_live_run() {
    let mut dry = AppState::new(cfg_with_device("ff"), rcfg(vec![rule("a")], 100, 2, true));
    let mut live = AppState::new(cfg_with_device("ff"), rcfg(vec![rule("a")], 100, 2, false));
    let mut calls = vec![];
    for (now, day, works) in
        [(1000, "1", true), (1050, "1", true), (1200, "1", false), (1400, "1", true), (1500, "2", true)]
    {
        let before = calls.len();
        let dry_actions = poll_once(&mut dry, now, day, &["ff"], works, &mut calls);
        assert_eq!(calls.len(), before);
        let live_actions = poll_once(&mut live, now, day, &["ff"], works, &mut calls);
        assert_eq!(
            dry_actions.contains(&Action::WouldReboot),
            live_actions.contains(&Action::Reboot { device: 0 })
        );
        assert_eq!(cadence(&dry), cadence(&live));
    }
    assert_eq!(calls.len(), 3);
}

#[test]
fn failed_queries_and_unknown_names_leave_no_trace() {
    let run = |rules: Vec<Rule>, answers: Vec<Option<Vec<&str>>>| {
        let mut state = AppState::new(cfg_with_device("ff"), rcfg(rules, 100, 5, false));
        let mut poll = Poll::new(Moment { nanos: secs(1000), shown: "1000".into() }, "1");
        let mut event = Event::Proceed;
        let mut reboots = vec![];
        loop {
            let action = state.step(&mut poll, event);
            event = match action {
                Action::Query { rule } => match &answers[rule] {
                    Some(list) => Event::Matched(list.iter().map(|d| d.to_string()).collect()),
                    None => Event::QueryFailed,
                },
                Action::Reboot { device } => {
                    reboots.push(device);
                    Event::Rebooted
                }
                Action::Done => return (reboots, cadence(&state), state.snapshot().last_reboot_ts),
                _ => Event::Proceed,
            };
        }
    };
    let whole = run(vec![rule("a"), rule("b")], vec![None, Some(vec!["zz", "ff", "yy"])]);
    assert_eq!(whole, run(vec![rule("b")], vec![Some(vec!["ff"])]));
    assert_eq!(whole.0, vec![0]);
}
