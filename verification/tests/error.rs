use gocoax::exporter::scrape::reason_for;
use gocoax::Error;

#[test]
fn error_messages_render() {
    let e = Error::Decode { cmd: "0x14".into(), reason: "short array".into() };
    assert_eq!(e.to_string(), "decode 0x14: short array");
    assert_eq!(Error::HttpStatus(401).to_string(), "unexpected http status 401");
}

#[test]
fn every_error_has_its_message() {
    assert_eq!(Error::Http("refused".into()).to_string(), "http error: refused");
    assert_eq!(Error::Timeout.to_string(), "request timed out");
    assert_eq!(Error::Auth.to_string(), "authentication failed");
    assert_eq!(Error::Csrf.to_string(), "csrf token rejected");
    assert_eq!(Error::Config("no".into()).to_string(), "config error: no");
}

#[test]
fn maps_errors_to_reasons() {
    assert_eq!(reason_for(&Error::Timeout), "timeout");
    assert_eq!(reason_for(&Error::Auth), "auth");
    assert_eq!(reason_for(&Error::Http("x".into())), "unreachable");
    assert_eq!(reason_for(&Error::Csrf), "csrf");
    assert_eq!(reason_for(&Error::HttpStatus(500)), "http_status");
    assert_eq!(
        reason_for(&Error::Decode { cmd: "0x14".into(), reason: "short".into() }),
        "decode"
    );
    assert_eq!(reason_for(&Error::Config("bad".into())), "config");
}
