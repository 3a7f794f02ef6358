use tauri_plugin_fingerprint::models::{FingerprintTemplate, TemplateMinutia};
use tauri_plugin_fingerprint::template::{
    best_frame, best_of_counts, copy_template, from_json_template, good_frames, good_of_counts,
    identify, is_template_file, minutiae_count, score, sort_by_username, template_from_image,
    minutiae_counts, to_json_template, usable_template, verify, Enrollment, Error, Template, DEFAULT_THRESHOLD, MIN_MINUTIAE,
};
use tauri_plugin_fingerprint::uru4500::{IMAGE_HEIGHT, IMAGE_WIDTH};

fn m(x: i32, y: i32, theta: i32) -> TemplateMinutia {
    TemplateMinutia { x, y, theta }
}

fn enrollment(username: &str, samples: Vec<Vec<TemplateMinutia>>) -> Enrollment {
    Enrollment {
        username: username.to_string(),
        finger: "right-index".to_string(),
        template: Template::Nbis(samples),
    }
}

#[test]
fn json_template_round_trip() {
    let enrollment = Enrollment {
        username: "alfian".to_string(),
        finger: "right-index".to_string(),
        template: Template::Nbis(vec![vec![m(10, 20, 30), m(40, 50, 60)]]),
    };

    let json_template = to_json_template(&enrollment).unwrap();
    let restored = from_json_template(&json_template).unwrap();

    assert_eq!(restored.username, enrollment.username);
    assert_eq!(restored.finger, enrollment.finger);
    assert_eq!(restored.minutiae_count(), enrollment.minutiae_count());
    assert_eq!(json_template.version, 1);
    assert_eq!(json_template.samples[0][0].x, 10);
}

#[test]
fn json_template_rejects_unknown_version() {
    let json_template = FingerprintTemplate {
        version: 2,
        username: "alfian".to_string(),
        finger: "right-index".to_string(),
        samples: vec![vec![TemplateMinutia { x: 10, y: 20, theta: 30 }]],
    };

    assert!(from_json_template(&json_template).is_err());
}

#[test]
fn json_round_trip_keeps_every_minutia() {
    let e = enrollment("budi", vec![vec![m(1, 2, 3)], vec![m(-4, 5, 359), m(7, -8, 0)]]);
    let j = to_json_template(&e).unwrap();
    let back = from_json_template(&j).unwrap();
    match back.template {
        Template::Nbis(samples) => {
            assert_eq!(samples, vec![vec![m(1, 2, 3)], vec![m(-4, 5, 359), m(7, -8, 0)]]);
        }
        _ => panic!("expected an NBIS template"),
    }
    assert_eq!(back.username, "budi");
}

#[test]
fn json_template_error_texts() {
    let mut t = FingerprintTemplate {
        version: 7,
        username: "a".to_string(),
        finger: "b".to_string(),
        samples: vec![vec![m(1, 1, 1)]],
    };
    match from_json_template(&t) {
        Err(Error::BadFormat(msg)) => assert_eq!(msg, "versi template 7 tidak didukung"),
        _ => panic!("expected a version error"),
    }
    t.version = 1;
    t.samples = vec![vec![], vec![]];
    let err = from_json_template(&t).err().unwrap();
    assert_eq!(err.message(), "format template: template JSON tidak memiliki minutiae");
}

#[test]
fn to_json_rejects_template_without_minutiae_list() {
    let e = Enrollment {
        username: "a".to_string(),
        finger: "b".to_string(),
        template: Template::Raw(vec![1, 2, 3]),
    };
    match to_json_template(&e) {
        Err(Error::BadFormat(msg)) => assert_eq!(msg, "template bukan NBIS"),
        _ => panic!("expected an error"),
    }
}

#[test]
fn minutiae_count_sums_samples() {
    let t = Template::Nbis(vec![vec![m(1, 1, 1), m(2, 2, 2)], vec![], vec![m(3, 3, 3)]]);
    assert_eq!(minutiae_count(&t), 3);
    assert_eq!(minutiae_count(&Template::Raw(vec![9; 10])), 0);
    assert_eq!(minutiae_count(&Template::Undefined), 0);
}

#[test]
fn error_messages() {
    assert_eq!(Error::Io("disk penuh".to_string()).message(), "io: disk penuh");
    assert_eq!(
        Error::NoMinutiae.message(),
        "tidak ada minutiae yang terdeteksi \u{2014} tempelkan jari lebih penuh"
    );
    assert_eq!(Error::BadFormat("x".to_string()).message(), "format template: x");
}

#[test]
fn best_of_counts_takes_last_of_the_largest() {
    assert_eq!(best_of_counts(&[3, 7, 2, 7, 1]), Some((3, 7)));
    assert_eq!(best_of_counts(&[0, 0, 0]), None);
    assert_eq!(best_of_counts(&[]), None);
    assert_eq!(best_of_counts(&[0, 4]), Some((1, 4)));
}

#[test]
fn good_of_counts_sorts_stably() {
    let counts = [25, 19, 30, 25, 20, 0];
    assert_eq!(good_of_counts(&counts), vec![(2, 30), (0, 25), (3, 25), (4, 20)]);
    assert_eq!(good_of_counts(&[MIN_MINUTIAE - 1, 3]), vec![]);
}

#[test]
fn short_frames_count_for_nothing() {
    let frames = vec![vec![0u8; 10], vec![]];
    assert_eq!(best_frame(&frames), None);
    assert!(good_frames(&frames).is_empty());
}

#[test]
fn short_image_is_a_format_error() {
    match template_from_image(&[0u8; 100]) {
        Err(Error::BadFormat(m)) => {
            assert_eq!(m, "BufferTooShort { width: 384, height: 290, got: 100 }")
        }
        _ => panic!("expected a format error"),
    }
}

#[test]
fn blank_image_has_no_minutiae() {
    let image = vec![255u8; IMAGE_WIDTH * IMAGE_HEIGHT];
    assert!(template_from_image(&image).is_err());
    assert_eq!(best_frame(&[image]), None);
}

#[test]
fn incomparable_templates_have_no_score() {
    let a = Template::Nbis(vec![vec![m(10, 10, 10)]]);
    let raw = Template::Raw(vec![1]);
    assert_eq!(score(&a, &raw), None);
    assert!(!verify(&a, &raw, 0));
    assert_eq!(identify(&raw, &[a.clone()], 0), None);
}

#[test]
fn identical_templates_match_at_threshold_zero() {
    let samples = vec![vec![
        m(100, 100, 10),
        m(150, 120, 45),
        m(200, 180, 90),
        m(120, 220, 135),
        m(250, 90, 180),
    ]];
    let a = Template::Nbis(samples.clone());
    let b = Template::Nbis(samples);
    let s = score(&a, &b).unwrap();
    assert!(verify(&a, &b, 0));
    assert_eq!(verify(&a, &b, s), true);
    assert_eq!(verify(&a, &b, s + 1), false);
    assert_eq!(identify(&b, &[Template::Raw(vec![]), a], s), Some(1));
    assert!(DEFAULT_THRESHOLD == 40);
}

#[test]
fn copy_template_keeps_content() {
    let t = Template::Nbis(vec![vec![m(1, 2, 3)]]);
    match copy_template(&t) {
        Template::Nbis(s) => assert_eq!(s, vec![vec![m(1, 2, 3)]]),
        _ => panic!("copy changed the kind"),
    }
    match copy_template(&Template::Raw(vec![4, 5])) {
        Template::Raw(b) => assert_eq!(b, vec![4, 5]),
        _ => panic!("copy changed the kind"),
    }
}

#[test]
fn template_file_names() {
    assert!(is_template_file("alfian.fpt"));
    assert!(is_template_file("a.b.fpt"));
    assert!(!is_template_file(".fpt"));
    assert!(!is_template_file("alfian.fpt.bak"));
    assert!(!is_template_file("alfian.FPT"));
    assert!(!is_template_file("fpt"));
}

#[test]
fn sort_by_username_is_stable() {
    let input = vec![
        enrollment("citra", vec![vec![m(1, 0, 0)]]),
        enrollment("andi", vec![vec![m(2, 0, 0)]]),
        enrollment("citra", vec![vec![m(3, 0, 0)]]),
        enrollment("Zed", vec![vec![m(4, 0, 0)]]),
        enrollment("and", vec![vec![m(5, 0, 0)]]),
    ];
    let out = sort_by_username(input);
    let names: Vec<&str> = out.iter().map(|e| e.username.as_str()).collect();
    assert_eq!(names, vec!["Zed", "and", "andi", "citra", "citra"]);
    let xs: Vec<i32> = out
        .iter()
        .map(|e| match &e.template {
            Template::Nbis(s) => s[0][0].x,
            _ => -1,
        })
        .collect();
    assert_eq!(xs, vec![4, 5, 2, 1, 3]);
}

#[test]
fn detected_templates_need_minutiae() {
    assert!(matches!(usable_template(Template::Nbis(vec![vec![]])), Err(Error::NoMinutiae)));
    assert!(matches!(usable_template(Template::Raw(vec![1])), Err(Error::NoMinutiae)));
    match usable_template(Template::Nbis(vec![vec![m(1, 2, 3)]])) {
        Ok(Template::Nbis(s)) => assert_eq!(s, vec![vec![m(1, 2, 3)]]),
        _ => panic!("expected the template back"),
    }
    assert!(matches!(
        Enrollment::from_template("a", "b", Template::Nbis(vec![])),
        Err(Error::NoMinutiae)
    ));
    let e = Enrollment::from_template("a", "b", Template::Nbis(vec![vec![m(1, 1, 1)]])).unwrap();
    assert_eq!((e.username.as_str(), e.finger.as_str(), e.minutiae_count()), ("a", "b", 1));
}

#[test]
fn counts_of_short_frames_are_zero() {
    assert_eq!(minutiae_counts(&[vec![0u8; 3], vec![], vec![255u8; 100]]), vec![0, 0, 0]);
}
