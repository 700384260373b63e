use gocoax::config::{Answer, Config, ConfigFields, PasswordSource, ResolvedCreds};
use gocoax::remediator::config::{
    load, parse_remediator, LoadError, RemediatorConfig, RemediatorFields,
};
use gocoax::Error;

/// Words for a text that is refused.
fn refused(text: &str) -> String {
    format!("refused {text}")
}

/// Words for a text whose table is refused.
fn refused_table(text: &str) -> String {
    format!("refused table {text}")
}

fn unread(_: &PasswordSource) -> Answer {
    panic!("nothing has to be read")
}

fn message<T>(r: Result<T, Error>) -> String {
    match r {
        Err(Error::Config(text)) => text,
        Err(other) => panic!("{other:?}"),
        Ok(_) => panic!("no error"),
    }
}

#[test]
fn parses_defaults_and_devices() {
    let c = Config::from_toml(
        "username=\"admin\"\npassword=\"g\"\n[[device]]\nname=\"a\"\nhost=\"10.0.0.1\"\n", &refused
    )
    .unwrap();
    assert_eq!(c.listen, "0.0.0.0:9420");
    assert_eq!(c.scrape_deadline_secs, 9);
    assert_eq!(c.device.len(), 1);
    let cr = c.creds_for(&c.device[0], &unread).unwrap();
    assert_eq!(cr.username, "admin");
    assert_eq!(cr.password, "g");
}

#[test]
fn device_overrides_global() {
    let c = Config::from_toml(
        "username=\"admin\"\npassword=\"g\"\n[[device]]\nname=\"a\"\nhost=\"h\"\nusername=\"root\"\npassword=\"x\"\n", &refused
    )
    .unwrap();
    let cr = c.creds_for(&c.device[0], &unread).unwrap();
    assert_eq!(cr.username, "root");
    assert_eq!(cr.password, "x");
}

#[test]
fn every_setting_can_be_given() {
    let c = Config::from_toml(
        "listen=\"1.2.3.4:5\"\nrequest_timeout_secs=10\nconnect_timeout_secs=20\nscrape_deadline_secs=30\npassword_env=\"E\"\npassword_file=\"F\"\nunknown=1979-05-27\n[other]\nx=1.5\n", &refused
    )
    .unwrap();
    assert_eq!(c.listen, "1.2.3.4:5");
    assert_eq!(
        (c.request_timeout_secs, c.connect_timeout_secs, c.scrape_deadline_secs),
        (10, 20, 30)
    );
    assert_eq!((c.username, c.password), (None, None));
    assert_eq!(c.password_env.as_deref(), Some("E"));
    assert_eq!(c.password_file.as_deref(), Some("F"));
    assert!(c.device.is_empty());
}

#[test]
fn what_a_file_leaves_out_has_its_default() {
    let c = Config::from_fields(ConfigFields {
        listen: None,
        request_timeout_secs: None,
        connect_timeout_secs: None,
        scrape_deadline_secs: Some(0),
        username: None,
        password: None,
        password_env: None,
        password_file: None,
        device: vec![],
    });
    assert_eq!(
        (c.request_timeout_secs, c.connect_timeout_secs, c.scrape_deadline_secs),
        (8, 3, 0)
    );
}

#[test]
fn bad_files_are_refused() {
    for text in [
        "listen = ",
        "listen = 5",
        "request_timeout_secs = -1",
        "request_timeout_secs = 1.5",
        "device = 1",
        "username = nan",
        "[[device]]\nname=\"a\"\n",
    ] {
        assert_eq!(message(Config::from_toml(text, &refused)), format!("refused {text}"));
        assert!(Config::parse(text).is_none());
    }
}

#[test]
fn a_source_of_the_device_comes_before_all_of_the_others() {
    let c = Config::from_toml(
        "password=\"g\"\n[[device]]\nname=\"a\"\nhost=\"h\"\npassword_env=\"LR_PW\"\n[[device]]\nname=\"b\"\nhost=\"h\"\n", &refused
    )
    .unwrap();
    let read = |source: &PasswordSource| match source {
        PasswordSource::Env(var) if var == "LR_PW" => Ok("secret".to_string()),
        _ => Err("unexpected".to_string()),
    };
    let first = c.creds_for(&c.device[0], &read).unwrap();
    assert_eq!(first, ResolvedCreds { username: "admin".into(), password: "secret".into() });
    assert_eq!(c.creds_for(&c.device[1], &unread).unwrap().password, "g");
}

#[test]
fn passwords_come_from_the_environment_or_a_file() {
    let c = Config::from_toml(
        "[[device]]\nname=\"a\"\nhost=\"h\"\npassword_env=\"V\"\npassword_file=\"p\"\n[[device]]\nname=\"b\"\nhost=\"h\"\npassword_file=\"p\"\n[[device]]\nname=\"c\"\nhost=\"h\"\n", &refused
    )
    .unwrap();
    let found = |_: &PasswordSource| Ok(" pw \n".to_string());
    assert_eq!(c.creds_for(&c.device[0], &found).unwrap().password, " pw \n");
    assert_eq!(c.creds_for(&c.device[1], &found).unwrap().password, "pw");
    let missing = |_: &PasswordSource| Err("no such file".to_string());
    assert_eq!(message(c.creds_for(&c.device[0], &missing)), "env V not set");
    assert_eq!(message(c.creds_for(&c.device[1], &missing)), "password_file p: no such file");
    assert_eq!(message(c.creds_for(&c.device[2], &unread)), "no password configured");
}

#[test]
fn devices_are_selected_by_name() {
    let c = Config::from_toml(
        "[[device]]\nname=\"a\"\nhost=\"1\"\n[[device]]\nname=\"b\"\nhost=\"2\"\n[[device]]\nname=\"b\"\nhost=\"3\"\n", &refused
    )
    .unwrap();
    assert_eq!(c.find_device("b"), Some(1));
    assert_eq!(c.select(Some("b")), Ok(vec![1]));
    assert_eq!(c.select(None), Ok(vec![0, 1, 2]));
    assert_eq!(c.select(Some("c")), Err("device c not in config".to_string()));
}

const TOML: &str = r#"
username = "admin"
password = "g"

[[device]]
name = "ff"
host = "10.0.0.1"

[remediator]
prometheus_url = "http://prometheus:9090"

[[remediator.rule]]
name = "unreachable"
expr = "max_over_time(gocoax_up[10m]) == 0"
"#;

#[test]
fn parses_devices_and_remediator_table_with_defaults() {
    let (cfg, rcfg) = load(TOML, &refused, &refused_table).unwrap();

    assert_eq!(cfg.device.len(), 1);
    assert_eq!(cfg.device[0].name, "ff");

    assert_eq!(rcfg.prometheus_url, "http://prometheus:9090");
    assert_eq!(rcfg.poll_interval_secs, 60);
    assert_eq!(rcfg.cooldown_secs, 1800);
    assert_eq!(rcfg.max_reboots_per_day, 4);
    assert_eq!(rcfg.listen, "0.0.0.0:9421");
    assert!(rcfg.dry_run);
    assert_eq!(rcfg.rule.len(), 1);
    assert_eq!(rcfg.rule[0].name, "unreachable");
    assert_eq!(rcfg.rule[0].expr, "max_over_time(gocoax_up[10m]) == 0");
    assert!(!rcfg.verbose);
}

#[test]
fn overrides_and_empty_rule_list_both_work() {
    let toml = r#"
username = "admin"
password = "g"

[remediator]
prometheus_url = "http://prometheus:9090"
poll_interval_secs = 30
cooldown_secs = 60
max_reboots_per_day = 2
listen = "127.0.0.1:9421"
dry_run = true
"#;
    let (_cfg, rcfg) = load(toml, &refused, &refused_table).unwrap();

    assert_eq!(rcfg.poll_interval_secs, 30);
    assert_eq!(rcfg.cooldown_secs, 60);
    assert_eq!(rcfg.max_reboots_per_day, 2);
    assert_eq!(rcfg.listen, "127.0.0.1:9421");
    assert!(rcfg.dry_run);
    assert!(rcfg.rule.is_empty());
}

#[test]
fn dry_run_must_be_explicitly_disabled_to_enable_live_reboots() {
    let toml = r#"
username = "admin"
password = "g"

[remediator]
prometheus_url = "http://prometheus:9090"
dry_run = false
"#;
    let (_cfg, rcfg) = load(toml, &refused, &refused_table).unwrap();

    assert!(!rcfg.dry_run);
}

fn complaint(text: &str) -> String {
    match load(text, &refused, &refused_table) {
        Err(LoadError::Toml(text)) => text,
        Err(other) => panic!("{other:?}"),
        Ok(_) => panic!("no error"),
    }
}

#[test]
fn bad_remediator_tables_are_refused() {
    for text in [
        "password=\"g\"\n",
        "[remediator]\n",
        "[remediator]\nprometheus_url=\"u\"\nmax_reboots_per_day=4294967296\n",
        "[remediator]\nprometheus_url=\"u\"\ndry_run=\"no\"\n",
        "[remediator]\nprometheus_url=\"u\"\n[[remediator.rule]]\nname=\"n\"\n",
    ] {
        assert_eq!(complaint(text), format!("refused table {text}"));
        assert!(parse_remediator(text).is_none());
    }
}

#[test]
fn a_load_error_says_which_part_is_wrong() {
    let own = load("listen = 5\n", &refused, &refused_table).unwrap_err();
    assert_eq!(own.to_string(), "config error: refused listen = 5\n");
    let table = load("listen = \"x\"\n", &refused, &refused_table).unwrap_err();
    assert_eq!(table.to_string(), "refused table listen = \"x\"\n");
}

#[test]
fn arrays_may_go_on_behind_the_fields() {
    let c = Config::from_toml("device = [[\"a\",\"h\",\"u\",\"p\",\"e\",\"f\",\"more\"]]\n", &refused).unwrap();
    assert_eq!((c.device[0].name.as_str(), c.device[0].host.as_str()), ("a", "h"));
    assert_eq!(c.device[0].password_file.as_deref(), Some("f"));
    assert!(Config::from_toml("device = [[\"a\",\"h\",\"u\",\"p\",\"e\"]]\n", &refused).is_err());
    let (_, rcfg) =
        load("remediator = [\"u\",1,2,3,\"l\",false,true,[[\"n\",\"e\",9]],\"more\"]\n", &refused, &refused_table).unwrap();
    assert_eq!((rcfg.poll_interval_secs, rcfg.dry_run), (1, false));
    assert_eq!(rcfg.rule[0].expr, "e");
}

#[test]
fn no_key_is_special() {
    let toml = r#"
"$serde_json::private::RawValue" = "[1"
[remediator]
"$serde_json::private::RawValue" = "{}"
prometheus_url = "u"
[[remediator.rule]]
"$__toml_private_datetime" = "x"
name = "n"
expr = "e"
"#;
    let (_, rcfg) = load(toml, &refused, &refused_table).unwrap();
    assert_eq!(rcfg.prometheus_url, "u");
    assert_eq!(rcfg.rule[0].name, "n");
}

#[test]
fn remediator_defaults_fail_closed() {
    let fields = |dry_run: Option<bool>| RemediatorFields {
        prometheus_url: "u".into(),
        poll_interval_secs: None,
        cooldown_secs: None,
        max_reboots_per_day: None,
        listen: None,
        dry_run,
        verbose: Some(true),
        rule: vec![],
    };
    assert!(RemediatorConfig::from_fields(fields(None)).dry_run);
    assert!(RemediatorConfig::from_fields(fields(Some(true))).dry_run);
    assert!(!RemediatorConfig::from_fields(fields(Some(false))).dry_run);
    assert!(RemediatorConfig::from_fields(fields(None)).verbose);
}
