use tauri_plugin_fingerprint::models::TemplateMinutia;
use tauri_plugin_fingerprint::template::{deserialize, serialize, Enrollment, Error, Template};

fn m(x: i32, y: i32, theta: i32) -> TemplateMinutia {
    TemplateMinutia { x, y, theta }
}

#[test]
fn serialize_writes_fpt1_text() {
    let e = Enrollment {
        username: "alfian".to_string(),
        finger: "right-index".to_string(),
        template: Template::Nbis(vec![vec![m(10, 20, 30), m(-1, 0, 359)], vec![]]),
    };
    assert_eq!(
        serialize(&e).unwrap(),
        "FPT1\nuser=alfian\nfinger=right-index\nsample\n10 20 30\n-1 0 359\nsample\n"
    );
}

#[test]
fn serialize_rejects_raw_templates() {
    let e = Enrollment {
        username: "a".to_string(),
        finger: "b".to_string(),
        template: Template::Raw(vec![]),
    };
    match serialize(&e) {
        Err(Error::BadFormat(msg)) => assert_eq!(msg, "template bukan NBIS"),
        _ => panic!("expected an error"),
    }
}

#[test]
fn fpt1_round_trip() {
    let e = Enrollment {
        username: "budi_01".to_string(),
        finger: "left thumb".to_string(),
        template: Template::Nbis(vec![
            vec![m(i32::MIN, i32::MAX, 0)],
            vec![],
            vec![m(5, 6, 7), m(8, 9, 10)],
        ]),
    };
    let text = serialize(&e).unwrap();
    let back = deserialize(&text).unwrap();
    assert_eq!(back.username, e.username);
    assert_eq!(back.finger, e.finger);
    match (back.template, e.template) {
        (Template::Nbis(a), Template::Nbis(b)) => assert_eq!(a, b),
        _ => panic!("expected NBIS templates"),
    }
}

#[test]
fn deserialize_reads_crlf_blank_lines_and_last_owner() {
    let text = "FPT1\r\nuser=a\r\nuser=b\r\n\r\n   \nfinger=f\nsample\n 1\t2  3 \n";
    let e = deserialize(text).unwrap();
    assert_eq!(e.username, "b");
    assert_eq!(e.finger, "f");
    match e.template {
        Template::Nbis(s) => assert_eq!(s, vec![vec![m(1, 2, 3)]]),
        _ => panic!("expected NBIS"),
    }
}

#[test]
fn deserialize_skips_words_that_are_not_numbers() {
    let e = deserialize("FPT1\nsample\n1 x 2 3\n").unwrap();
    match e.template {
        Template::Nbis(s) => assert_eq!(s, vec![vec![m(1, 2, 3)]]),
        _ => panic!("expected NBIS"),
    }
}

#[test]
fn deserialize_header_errors() {
    for text in ["", "FPT2\n", "fpt1\nsample\n", "FPT1 \n"] {
        match deserialize(text) {
            Err(Error::BadFormat(msg)) => assert_eq!(msg, "header bukan FPT1"),
            _ => panic!("expected a header error for {text:?}"),
        }
    }
}

#[test]
fn deserialize_bad_minutia_line() {
    match deserialize("FPT1\nsample\n1 2\n") {
        Err(Error::BadFormat(msg)) => assert_eq!(msg, "baris minutia rusak: \"1 2\""),
        _ => panic!("expected an error"),
    }
    match deserialize("FPT1\nsample\n1 2 3 4\n") {
        Err(Error::BadFormat(msg)) => assert_eq!(msg, "baris minutia rusak: \"1 2 3 4\""),
        _ => panic!("expected an error"),
    }
    match deserialize("FPT1\nsample\nsa\"y\n") {
        Err(Error::BadFormat(msg)) => assert_eq!(msg, "baris minutia rusak: \"sa\\\"y\""),
        _ => panic!("expected an error"),
    }
}

#[test]
fn deserialize_minutia_before_sample() {
    match deserialize("FPT1\nuser=x\n1 2 3\nsample\n") {
        Err(Error::BadFormat(msg)) => assert_eq!(msg, "minutia sebelum 'sample'"),
        _ => panic!("expected an error"),
    }
}

#[test]
fn deserialize_header_only() {
    let e = deserialize("FPT1").unwrap();
    assert_eq!(e.username, "");
    assert_eq!(e.finger, "");
    match e.template {
        Template::Nbis(s) => assert!(s.is_empty()),
        _ => panic!("expected NBIS"),
    }
}
