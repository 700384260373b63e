use gocoax::ms::{
    self, fmr_info, mac_info, net_info, parse_ms_response, read_data, read_word, read_words, reboot, MsCmd,
};
use gocoax::Error;

/// Words for a text that is refused.
fn refused(text: &str) -> String {
    format!("refused {text}")
}

fn reason(r: Result<Vec<u32>, Error>) -> String {
    match r {
        Err(Error::Decode { cmd, reason }) => {
            assert_eq!(cmd, "ms");
            reason
        }
        other => panic!("{other:?}"),
    }
}

#[test]
fn path_formats_get_suffix() {
    assert_eq!(mac_info().path(), "/ms/1/0x103/GET");
    assert_eq!(net_info().path(), "/ms/0/0x16");
    assert_eq!(reboot().path(), "/ms/1/0xb00");
}

#[test]
fn every_command_has_its_path() {
    let paths: Vec<String> = [
        ms::local_info(),
        ms::frame_info(),
        ms::eth_info(),
        ms::ip_addr(),
        ms::lof(),
        fmr_info(),
        MsCmd::new(7, "0xff", true),
    ]
    .iter()
    .map(|c| c.path())
    .collect();
    assert_eq!(
        paths,
        vec![
            "/ms/0/0x15",
            "/ms/0/0x14",
            "/ms/1/0x307/GET",
            "/ms/1/0x20b/GET",
            "/ms/0/0x1003/GET",
            "/ms/0/0x1D",
            "/ms/7/0xff/GET",
        ]
    );
}

#[test]
fn parses_word_array() {
    let v = parse_ms_response(r#"{"data":["0xc00002fa"]}"#, &refused).unwrap();
    assert_eq!(v, vec![0xc00002fa]);
}

#[test]
fn parses_multi_word() {
    let v = parse_ms_response(r#"{"data":["0x94cc0400","0x00010000"]}"#, &refused).unwrap();
    assert_eq!(v, vec![0x94cc0400, 0x00010000]);
}

#[test]
fn rejects_bad_word() {
    assert!(parse_ms_response(r#"{"data":["0xZZ"]}"#, &refused).is_err());
}

#[test]
fn other_members_do_not_matter() {
    let v = parse_ms_response(r#" {"n": 1e999, "data" : [ "0x1" , "2" ], "x": [null]} "#, &refused).unwrap();
    assert_eq!(v, vec![1, 2]);
    assert_eq!(parse_ms_response(r#"{"data":[]}"#, &refused).unwrap(), Vec::<u32>::new());
}

#[test]
fn members_are_told_apart_whatever_they_hold() {
    let body = r#"{"a":"},[{\"\\","b":[{"c":[1,{}]},-2.5e1,true], "d\u0061ta" :[ "0x1" ,"2"] }"#;
    assert_eq!(parse_ms_response(body, &refused).unwrap(), vec![1, 2]);
    assert_eq!(parse_ms_response("\t{ }", &refused).is_err(), true);
}

#[test]
fn a_field_comes_once() {
    assert!(parse_ms_response(r#"{"data":["0x1"],"data":["0x2"]}"#, &refused).is_err());
    assert!(parse_ms_response(r#"{"data":["0x1"],"d\u0061ta":["0x2"]}"#, &refused).is_err());
    let v = parse_ms_response(r#"{"x":1,"data":["0x1"],"x":2}"#, &refused).unwrap();
    assert_eq!(v, vec![1]);
}

#[test]
fn an_array_reads_as_the_fields_in_order() {
    assert_eq!(parse_ms_response(r#"[["0x1"]]"#, &refused).unwrap(), vec![1]);
    assert!(parse_ms_response(r#"[["0x1"],2]"#, &refused).is_err());
    assert!(parse_ms_response("[]", &refused).is_err());
}

#[test]
fn bad_answers_say_why() {
    assert_eq!(reason(parse_ms_response("{}", &refused)), "json: refused {}");
    assert_eq!(reason(parse_ms_response("nothing", &refused)), "json: refused nothing");
    assert_eq!(
        reason(parse_ms_response(r#"{"data":["0xZZ"]}"#, &refused)),
        r#"word "0xZZ": invalid digit found in string"#
    );
    assert_eq!(
        reason(parse_ms_response(r#"{"data":["0x"]}"#, &refused)),
        r#"word "0x": cannot parse integer from empty string"#
    );
    assert_eq!(
        reason(parse_ms_response(r#"{"data":["0x1ffffffff"]}"#, &refused)),
        r#"word "0x1ffffffff": number too large to fit in target type"#
    );
    assert_eq!(
        reason(parse_ms_response(r#"{"data":[1]}"#, &refused)),
        r#"json: refused {"data":[1]}"#
    );
    assert!(read_data(r#"{"data":[1]}"#).is_none());
    assert_eq!(read_data(r#"{"data":["0xZZ"]}"#), Some(vec!["0xZZ".to_string()]));
}

#[test]
fn words_may_have_prefixes_and_space() {
    assert_eq!(read_word(" 0x0xFf\t").unwrap(), 255);
    assert_eq!(read_word("+10").unwrap(), 16);
    assert!(read_word("0X1").is_err());
    let texts = vec!["1".to_string(), "0xa".to_string()];
    assert_eq!(read_words(&texts).unwrap(), vec![1, 10]);
}
