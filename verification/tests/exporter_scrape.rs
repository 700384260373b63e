use gocoax::config::{Answer, PasswordSource};
use gocoax::decode::DeviceStatus;
use gocoax::exporter::scrape::{AppState, DeviceNext, DeviceRead, DeviceResult, Reading};
use gocoax::ms::{parse_ms_response, reboot};
use gocoax::reads::{Next, NodesRead, PhyRead, StatusRead};
use gocoax::Error;

/// Words for a text that is refused.
fn refused(text: &str) -> String {
    format!("refused {text}")
}

fn unread(_: &PasswordSource) -> Answer {
    Err("not read".to_string())
}

fn words(len: usize, given: &[(usize, u32)]) -> Vec<u32> {
    let mut list = vec![0u32; len];
    for (at, w) in given {
        list[*at] = *w;
    }
    list
}

/// What an adapter on a network of two nodes answers at `path`.
fn adapter(path: &str) -> Result<Vec<u32>, Error> {
    match path {
        "/ms/0/0x15" => Ok(words(
            32,
            &[(0, 1), (5, 1), (11, 0x25), (12, 0x03), (21, 0x312e3138), (22, 0x2e313500)],
        )),
        "/ms/1/0x103/GET" => parse_ms_response(r#"{"data":["0x94cc0400","0x00010000"]}"#, &refused),
        "/ms/0/0x14" => Ok(words(104, &[(13, 317682), (103, 46)])),
        "/ms/1/0x20b/GET" => Ok(vec![0xc00002fa]),
        "/ms/0/0x1003/GET" => Ok(vec![1150]),
        "/ms/1/0x307/GET" => Ok(vec![0, 0, 0, 1, 2, 1]),
        "/ms/0/0x16" => Ok(words(8, &[(0, 0x94cc0400), (1, 0x00010000), (4, 0x25)])),
        "/ms/0/0x1D" => Ok(words(42, &[(10, 0x0c0c11f8), (11, 0x11f80c0c), (12, 0x5dae0000)])),
        other => panic!("{other}"),
    }
}

/// Reads a device that answers as `answer` says, and gives the paths and bodies
/// that it was asked with.
fn read_device(answer: &dyn Fn(&str) -> Result<Vec<u32>, Error>) -> (Vec<(String, String)>, Reading) {
    let (mut read, mut next) = DeviceRead::new();
    let mut asked = vec![];
    loop {
        match next {
            DeviceNext::Read { cmd, body } => {
                let path = cmd.path();
                let reply = answer(&path);
                asked.push((path, body));
                next = read.step(reply);
            }
            DeviceNext::Done(reading) => return (asked, reading),
        }
    }
}

fn exporter(devices: &[(&str, &str)]) -> AppState {
    let mut toml = "username = \"admin\"\npassword = \"g\"\n".to_string();
    for (name, host) in devices {
        toml.push_str(&format!("[[device]]\nname = \"{name}\"\nhost = \"{host}\"\n"));
    }
    AppState::from_config_text(&toml, &unread, &refused).unwrap()
}

#[test]
fn app_state_parses_config_and_exposes_listen() {
    let toml = r#"
listen = "127.0.0.1:9420"
username = "admin"
password = "g"

[[device]]
name = "ff"
host = "10.0.0.1"
"#;
    let state = AppState::from_config_text(toml, &unread, &refused).unwrap();
    assert_eq!(state.listen(), "127.0.0.1:9420");
    assert_eq!(state.clients.len(), 1);
    assert_eq!(state.clients[0].0, "ff");
    assert_eq!(state.clients[0].2.base_url, "http://10.0.0.1");
    assert_eq!(state.clients[0].2.opts.request_timeout_secs, 8);
}

#[test]
fn app_state_propagates_config_errors() {
    let toml = r#"
[[device]]
name = "ff"
host = "10.0.0.1"
"#;
    let result = AppState::from_config_text(toml, &unread, &refused);
    assert!(matches!(result, Err(Error::Config(_))));
}

#[test]
fn a_device_is_read_register_by_register() {
    let (asked, reading) = read_device(&adapter);
    let asked: Vec<(&str, &str)> = asked.iter().map(|(p, b)| (p.as_str(), b.as_str())).collect();
    assert_eq!(
        asked,
        vec![
            ("/ms/0/0x15", r#"{"data":[]}"#),
            ("/ms/1/0x103/GET", r#"{"data":[0]}"#),
            ("/ms/0/0x14", r#"{"data":[0]}"#),
            ("/ms/1/0x20b/GET", r#"{"data":[0]}"#),
            ("/ms/0/0x1003/GET", r#"{"data":[0]}"#),
            ("/ms/1/0x307/GET", r#"{"data":[0]}"#),
            ("/ms/0/0x15", r#"{"data":[]}"#),
            ("/ms/0/0x16", r#"{"data":[0]}"#),
            ("/ms/0/0x16", r#"{"data":[1]}"#),
            ("/ms/0/0x1D", r#"{"data":[1,2]}"#),
            ("/ms/0/0x1D", r#"{"data":[2,2]}"#),
        ]
    );
    assert!(reading.error.is_none());
    let status = reading.status.unwrap();
    assert_eq!(status.mac, "94:cc:04:00:00:01");
    let phy = reading.phy.unwrap();
    assert_eq!(phy.node_versions, vec![(0, 0x25), (1, 0x25)]);
    assert_eq!(phy.gcd_mbps, vec![(0, 701), (1, 3656)]);
    let pairs: Vec<(u32, u32)> = phy.links.iter().map(|l| (l.from_node, l.to_node)).collect();
    assert_eq!(pairs, vec![(0, 0), (0, 1), (1, 0), (1, 1)]);
}

#[test]
fn a_scrape_only_reads() {
    assert_eq!(reboot().path(), "/ms/1/0xb00");
    let (asked, _) = read_device(&adapter);
    assert!(asked.iter().all(|(path, _)| path != "/ms/1/0xb00"));
}

#[test]
fn missing_port_register_costs_the_ports_only() {
    let (_, reading) = read_device(&|path| match path {
        "/ms/1/0x307/GET" => Err(Error::HttpStatus(400)),
        other => adapter(other),
    });
    let status = reading.status.unwrap();
    assert!(status.eth_ports.is_empty());
    assert_eq!(status.ip.to_string(), "192.0.2.250");
    assert!(reading.phy.is_some());
    assert!(reading.error.is_none());
}

#[test]
fn failing_status_ends_the_read() {
    let (asked, reading) = read_device(&|path| match path {
        "/ms/0/0x14" => Err(Error::Timeout),
        other => adapter(other),
    });
    assert_eq!(asked.len(), 3);
    assert!(reading.status.is_none() && reading.phy.is_none());
    assert!(matches!(reading.error, Some(Error::Timeout)));
}

#[test]
fn failing_rates_leave_the_device_up() {
    let (_, reading) = read_device(&|path| match path {
        "/ms/0/0x16" => Ok(vec![0; 4]),
        other => adapter(other),
    });
    let result = DeviceResult::new("ff", "h", reading, "1".to_string());
    assert!(result.up && result.status.is_some() && result.phy.is_none());
    assert_eq!(result.error_reason, Some("decode"));
}

#[test]
fn older_networks_are_asked_in_the_older_version() {
    let (asked, _) = read_device(&|path| match path {
        "/ms/0/0x15" => adapter(path).map(|mut w| {
            w[11] = 0x11;
            w
        }),
        other => adapter(other),
    });
    assert_eq!(asked[9].1, r#"{"data":[1,1]}"#);
}

#[test]
fn a_network_without_nodes_has_no_rates() {
    let (mut read, first) = PhyRead::new();
    assert!(matches!(first, Next::Read { .. }));
    match read.step(Ok(vec![0; 13])) {
        Next::Done(Ok(rates)) => {
            assert!(rates.links.is_empty() && rates.node_versions.is_empty())
        }
        _ => panic!("not done"),
    }
}

#[test]
fn a_status_read_decodes_its_answers() {
    let (mut read, mut next) = StatusRead::new();
    let status: DeviceStatus = loop {
        match next {
            Next::Read { cmd, .. } => next = read.step(adapter(&cmd.path())),
            Next::Done(outcome) => break outcome.unwrap(),
        }
    };
    assert_eq!(status.node_count, 2);
}

#[test]
fn nodes_are_listed_from_what_the_adapter_holds() {
    let (mut read, mut next) = NodesRead::new();
    let mut bodies = vec![];
    let list = loop {
        match next {
            Next::Read { cmd, body } => {
                bodies.push(body);
                next = read.step(adapter(&cmd.path()));
            }
            Next::Done(outcome) => break outcome.unwrap().nodes,
        }
    };
    assert_eq!(bodies, vec![r#"{"data":[]}"#, r#"{"data":[0]}"#, r#"{"data":[1]}"#]);
    assert_eq!(list.len(), 2);
    assert_eq!((list[1].node_id, list[1].moca_version.as_str()), (1, "2.5"));

    let (mut read, _) = NodesRead::new();
    assert!(matches!(read.step(Ok(vec![0; 12])), Next::Done(Err(Error::Decode { .. }))));
    let (mut read, _) = NodesRead::new();
    assert!(matches!(read.step(Err(Error::Auth)), Next::Done(Err(Error::Auth))));
}

#[test]
fn scrape_reports_up_device_with_real_metrics() {
    let mut state = exporter(&[("ff", "10.0.0.1")]);
    let (_, reading) = read_device(&adapter);
    let result = DeviceResult::new("ff", "10.0.0.1", reading, "0.25".to_string());
    let out = state.finish_scrape(vec![Some(result)], "0.3", "1700000000.5");

    assert!(out.contains("gocoax_up{device=\"ff\"} 1"), "missing up=1 line:\n{out}");
    assert!(
        out.contains(r#"gocoax_info{device="ff""#) && out.contains(r#"mac="94:cc:04:00:00:01""#),
        "missing gocoax_info line with mac:\n{out}"
    );
    assert!(!out.contains("gocoax_scrape_errors_total{device=\"ff\""));
    assert!(out.contains("gocoax_last_success_timestamp_seconds{device=\"ff\"} 1700000000.5"));
}

#[test]
fn scrape_reports_down_device_as_unreachable_and_still_returns_200_text() {
    let mut state = exporter(&[("ff", "127.0.0.1:1")]);
    let (_, reading) = read_device(&|_| Err(Error::Http("refused".into())));
    let result = DeviceResult::new("ff", "127.0.0.1:1", reading, "0.1".to_string());
    let out = state.finish_scrape(vec![Some(result)], "0.1", "1");

    assert!(out.contains("gocoax_up{device=\"ff\"} 0"), "missing up=0 line:\n{out}");
    assert!(
        out.contains("gocoax_scrape_errors_total{device=\"ff\",reason=\"unreachable\"}"),
        "missing unreachable error line:\n{out}"
    );
    assert!(!out.contains("gocoax_info{device=\"ff\""));
}

#[test]
fn scrape_respects_global_deadline_for_a_slow_device() {
    let mut state = exporter(&[("ff", "h1"), ("gg", "h2")]);
    let (_, reading) = read_device(&adapter);
    let fast = DeviceResult::new("gg", "h2", reading, "0.2".to_string());
    let out = state.finish_scrape(vec![None, Some(fast)], "1", "5");

    assert!(out.contains("gocoax_up{device=\"ff\"} 0"), "missing up=0 line:\n{out}");
    assert!(
        out.contains("gocoax_scrape_errors_total{device=\"ff\",reason=\"timeout\"}"),
        "missing timeout error line:\n{out}"
    );
    assert!(out.contains("gocoax_scrape_duration_seconds{device=\"ff\"} 1\n"));
    assert!(out.contains("gocoax_up{device=\"gg\"} 1"));
}

#[test]
fn failures_add_up_and_successes_keep_their_time() {
    let mut state = exporter(&[("ff", "h")]);
    let (_, reading) = read_device(&adapter);
    state.finish_scrape(
        vec![Some(DeviceResult::new("ff", "h", reading, "1".to_string()))],
        "1",
        "100",
    );
    assert!(state.has_room());
    state.finish_scrape(vec![None], "9", "200");
    let (_, reading) = read_device(&|_| Err(Error::Auth));
    let failed = DeviceResult::new("ff", "h", reading, "1".to_string());
    state.finish_scrape(vec![Some(failed)], "1", "300");
    let out = state.finish_scrape(vec![None], "9", "400");
    assert!(out.contains("gocoax_scrape_errors_total{device=\"ff\",reason=\"timeout\"} 2\n"));
    assert!(out.contains("gocoax_scrape_errors_total{device=\"ff\",reason=\"auth\"} 1\n"));
    assert!(out.contains("gocoax_last_success_timestamp_seconds{device=\"ff\"} 100\n"));
}

#[test]
fn a_scrape_succeeds_or_fails_for_each_device() {
    let devices = [("a", "h1"), ("b", "h2"), ("c", "h3")];
    let mut state = exporter(&devices);
    let (_, good) = read_device(&adapter);
    let (_, half) = read_device(&|path| match path {
        "/ms/0/0x16" => Err(Error::Csrf),
        other => adapter(other),
    });
    let out = state.finish_scrape(
        vec![
            Some(DeviceResult::new("a", "h1", good, "0.5".to_string())),
            Some(DeviceResult::new("b", "h2", half, "0.6".to_string())),
            None,
        ],
        "9",
        "77",
    );
    let with = |start: &str| -> Vec<String> {
        out.lines().filter(|l| l.starts_with(start)).map(|l| l.to_string()).collect()
    };
    assert_eq!(
        with("gocoax_up{"),
        vec!["gocoax_up{device=\"a\"} 1", "gocoax_up{device=\"b\"} 1", "gocoax_up{device=\"c\"} 0"]
    );
    assert_eq!(
        with("gocoax_scrape_duration_seconds{"),
        vec![
            "gocoax_scrape_duration_seconds{device=\"a\"} 0.5",
            "gocoax_scrape_duration_seconds{device=\"b\"} 0.6",
            "gocoax_scrape_duration_seconds{device=\"c\"} 9",
        ]
    );
    assert_eq!(
        with("gocoax_last_success_timestamp_seconds{"),
        vec!["gocoax_last_success_timestamp_seconds{device=\"a\"} 77"]
    );
    assert_eq!(
        with("gocoax_scrape_errors_total{"),
        vec![
            "gocoax_scrape_errors_total{device=\"b\",reason=\"csrf\"} 1",
            "gocoax_scrape_errors_total{device=\"c\",reason=\"timeout\"} 1",
        ]
    );
}
