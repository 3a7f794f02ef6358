use tauri_plugin_fingerprint::desktop::{
    identified_response, irq_awaited, pick_of_counts, touch_of_counts, verified_response, add_touch, build_enrollment, capture_frames_plan, capture_response, captured_frame,
    device_info, device_status, diagnostic_frame_count, enroll_plan, enroll_response,
    enroll_scan_count, enrolled_source, finish_operation, identify_response, image_data_url,
    match_threshold, preview_urls, saves_locally, scan_pick, select_touch, template_file_name,
    unmatched_response, validate_finger, validate_username, verify_response, wait_duration,
    EnrolledSource,
};
use tauri_plugin_fingerprint::error::Error;
use tauri_plugin_fingerprint::models::{
    CaptureFramesRequest, EnrollRequest, FingerprintTemplate, TemplateMinutia,
};
use tauri_plugin_fingerprint::template::{Enrollment, Template};
use tauri_plugin_fingerprint::uru4500::{self, IMAGE_HEIGHT, IMAGE_WIDTH};

fn invalid(r: Error) -> String {
    match r {
        Error::InvalidInput(m) => m,
        other => panic!("expected invalid input, got {other:?}"),
    }
}

fn fingerprint(r: Error) -> String {
    match r {
        Error::Fingerprint(m) => m,
        other => panic!("expected a fingerprint error, got {other:?}"),
    }
}

fn m(x: i32, y: i32, theta: i32) -> TemplateMinutia {
    TemplateMinutia { x, y, theta }
}

fn enroll_request(username: &str, finger: &str) -> EnrollRequest {
    EnrollRequest {
        username: username.to_string(),
        finger: finger.to_string(),
        samples: None,
        timeout_secs: None,
        include_images: None,
        save_locally: None,
    }
}

#[test]
fn wait_duration_defaults_and_limits() {
    assert_eq!(wait_duration(None).unwrap(), 60);
    assert_eq!(wait_duration(Some(1)).unwrap(), 1);
    assert_eq!(wait_duration(Some(300)).unwrap(), 300);
    assert_eq!(invalid(wait_duration(Some(0)).err().unwrap()), "timeoutSecs harus antara 1 dan 300");
    assert_eq!(invalid(wait_duration(Some(301)).err().unwrap()), "timeoutSecs harus antara 1 dan 300");
}

#[test]
fn counts_default_and_limits() {
    assert_eq!(diagnostic_frame_count(None).unwrap(), 5);
    assert_eq!(diagnostic_frame_count(Some(20)).unwrap(), 20);
    assert_eq!(invalid(diagnostic_frame_count(Some(21)).err().unwrap()), "count harus antara 1 dan 20");
    assert_eq!(enroll_scan_count(None).unwrap(), 4);
    assert_eq!(enroll_scan_count(Some(10)).unwrap(), 10);
    assert_eq!(invalid(enroll_scan_count(Some(0)).err().unwrap()), "samples harus antara 1 dan 10");
    assert_eq!(match_threshold(None), 40);
    assert_eq!(match_threshold(Some(12)), 12);
    assert!(saves_locally(None));
    assert!(!saves_locally(Some(false)));
}

#[test]
fn usernames() {
    assert!(validate_username("alfian_01-b").is_ok());
    assert!(validate_username("Ünal").is_ok());
    assert_eq!(invalid(validate_username("").err().unwrap()), "username tidak boleh kosong");
    assert_eq!(
        invalid(validate_username(&"a".repeat(129)).err().unwrap()),
        "username maksimal 128 karakter"
    );
    assert!(validate_username(&"a".repeat(128)).is_ok());
    assert_eq!(
        invalid(validate_username(&"é".repeat(65)).err().unwrap()),
        "username maksimal 128 karakter"
    );
    for bad in ["a b", "../x", "a.fpt", "x/y"] {
        assert_eq!(
            invalid(validate_username(bad).err().unwrap()),
            "username hanya boleh berisi huruf, angka, '-' dan '_'"
        );
    }
}

#[test]
fn fingers() {
    assert!(validate_finger(" kanan ").is_ok());
    assert_eq!(invalid(validate_finger(" \t\n").err().unwrap()), "finger tidak boleh kosong");
    assert_eq!(invalid(validate_finger("").err().unwrap()), "finger tidak boleh kosong");
}

#[test]
fn enroll_plan_checks_in_order() {
    assert_eq!(enroll_plan(&enroll_request("alfian", "right")).unwrap(), (4, 60));
    let mut r = enroll_request("", "");
    assert_eq!(invalid(enroll_plan(&r).err().unwrap()), "username tidak boleh kosong");
    r.username = "alfian".to_string();
    assert_eq!(invalid(enroll_plan(&r).err().unwrap()), "finger tidak boleh kosong");
    r.finger = "right".to_string();
    r.samples = Some(11);
    r.timeout_secs = Some(0);
    assert_eq!(invalid(enroll_plan(&r).err().unwrap()), "samples harus antara 1 dan 10");
    r.samples = Some(2);
    assert_eq!(invalid(enroll_plan(&r).err().unwrap()), "timeoutSecs harus antara 1 dan 300");
    r.timeout_secs = Some(5);
    assert_eq!(enroll_plan(&r).unwrap(), (2, 5));
}

#[test]
fn capture_frames_plan_checks_in_order() {
    let mut r = CaptureFramesRequest { count: Some(0), output_prefix: None, timeout_secs: Some(0) };
    assert_eq!(invalid(capture_frames_plan(&r).err().unwrap()), "count harus antara 1 dan 20");
    r.count = None;
    assert_eq!(invalid(capture_frames_plan(&r).err().unwrap()), "timeoutSecs harus antara 1 dan 300");
    r.timeout_secs = None;
    assert_eq!(capture_frames_plan(&r).unwrap(), (5, 60));
}

#[test]
fn touches_without_minutiae_are_refused() {
    let frames = vec![vec![0u8; 10], vec![255u8; IMAGE_WIDTH * IMAGE_HEIGHT]];
    let text = "tidak ada minutiae \u{2014} tempelkan jari lebih penuh";
    assert_eq!(fingerprint(scan_pick(&frames).err().unwrap()), text);
    assert_eq!(fingerprint(select_touch(&frames).err().unwrap()), text);
    let mut images = vec![vec![1u8]];
    let mut previews = Vec::new();
    assert_eq!(fingerprint(add_touch(&frames, &mut images, &mut previews).err().unwrap()), text);
    assert_eq!(images, vec![vec![1u8]]);
    assert!(previews.is_empty());
}

#[test]
fn enrollment_without_minutiae_is_refused() {
    let images = vec![vec![255u8; IMAGE_WIDTH * IMAGE_HEIGHT], vec![0u8; 3]];
    let e = build_enrollment("alfian", "right", &images).err().unwrap();
    assert_eq!(
        fingerprint(e),
        "tidak ada minutiae yang terdeteksi \u{2014} tempelkan jari lebih penuh"
    );
}

#[test]
fn template_file_name_of_user() {
    assert_eq!(template_file_name("alfian").unwrap(), "alfian.fpt");
    assert_eq!(
        invalid(template_file_name("../etc").err().unwrap()),
        "username hanya boleh berisi huruf, angka, '-' dan '_'"
    );
}

#[test]
fn finishing_an_operation() {
    let ok: Result<u8, Error> = Ok(3);
    assert_eq!(finish_operation(ok, Ok(())).unwrap(), 3);
    let r = finish_operation(Ok::<u8, Error>(3), Err(Error::Fingerprint("off".into())));
    assert_eq!(fingerprint(r.err().unwrap()), "off");
    let r = finish_operation(
        Err::<u8, Error>(Error::Fingerprint("op".into())),
        Err(Error::Fingerprint("off".into())),
    );
    assert_eq!(fingerprint(r.err().unwrap()), "op");
}

#[test]
fn device_status_and_info() {
    let s = device_status(None);
    assert!(s.detected);
    assert_eq!(s.model, "DigitalPersona U.are.U 4500");
    assert_eq!(s.vendor_id, "05ba");
    assert_eq!(s.product_id, "000a");
    assert_eq!(s.message, None);
    let s = device_status(Some(uru4500::Error::NotFound));
    assert!(!s.detected);
    assert_eq!(s.message.unwrap(), "U.are.U 4500 (05ba:000a) tidak ditemukan di bus USB");
    let i = device_info("1234 / ab0c".to_string());
    assert_eq!(i.model, "DigitalPersona U.are.U 4500");
    assert_eq!(i.hardware_firmware_version, "1234 / ab0c");
    assert_eq!((i.image_width, i.image_height, i.image_ppi), (384, 290, 500));
    let c = capture_response("/tmp/a.pgm".to_string(), 31);
    assert_eq!((c.path.as_str(), c.minutiae_count, c.image_width, c.image_height), ("/tmp/a.pgm", 31, 384, 290));
    let f = captured_frame("/tmp/f0.pgm".to_string(), &[0u8; 5]);
    assert_eq!(f.minutiae_count, 0);
}

#[test]
fn image_data_urls() {
    let image = vec![0u8; IMAGE_WIDTH * IMAGE_HEIGHT];
    let url = image_data_url(&image).unwrap();
    assert!(url.starts_with("data:image/png;base64,iVBORw0KGgo"));
    assert!(url.len() > "data:image/png;base64,".len() + 20);
    assert_eq!(
        fingerprint(image_data_url(&[1, 2, 3]).err().unwrap()),
        "gagal menulis PNG: wrong data size, expected 111360 got 3"
    );
    assert!(preview_urls(&[image.clone()], None).unwrap().is_empty());
    let urls = preview_urls(&[image.clone(), image], Some(true)).unwrap();
    assert_eq!(urls.len(), 2);
    assert_eq!(urls[0], url);
    assert_eq!(
        fingerprint(preview_urls(&[vec![0u8; 4]], Some(true)).err().unwrap()),
        "gagal menulis PNG: wrong data size, expected 111360 got 4"
    );
}

#[test]
fn verify_sources() {
    match enrolled_source(&None, &None) {
        Err(e) => assert_eq!(invalid(e), "username atau template JSON harus diberikan"),
        Ok(_) => panic!("expected an error"),
    }
    match enrolled_source(&None, &Some("alfian".to_string())) {
        Ok(EnrolledSource::Stored(u)) => assert_eq!(u, "alfian"),
        _ => panic!("expected the stored template"),
    }
    match enrolled_source(&None, &Some("a b".to_string())) {
        Err(e) => assert_eq!(invalid(e), "username hanya boleh berisi huruf, angka, '-' dan '_'"),
        Ok(_) => panic!("expected an error"),
    }
    let t = FingerprintTemplate {
        version: 1,
        username: "alfian".to_string(),
        finger: "right".to_string(),
        samples: vec![vec![m(1, 2, 3)]],
    };
    match enrolled_source(&Some(t.clone()), &Some("ignored name".to_string())) {
        Ok(EnrolledSource::Json(e)) => assert_eq!(e.username, "alfian"),
        _ => panic!("expected the JSON template"),
    }
    let mut bad = t;
    bad.version = 3;
    match enrolled_source(&Some(bad), &None) {
        Err(e) => assert_eq!(fingerprint(e), "format template: versi template 3 tidak didukung"),
        Ok(_) => panic!("expected an error"),
    }
}

fn sample_minutiae() -> Vec<Vec<TemplateMinutia>> {
    vec![vec![m(100, 100, 10), m(150, 120, 45), m(200, 180, 90), m(120, 220, 135), m(250, 90, 180)]]
}

#[test]
fn verify_responses() {
    let enrolled = Enrollment {
        username: "alfian".to_string(),
        finger: "right".to_string(),
        template: Template::Nbis(sample_minutiae()),
    };
    let scanned = Template::Nbis(sample_minutiae());
    let r = verify_response(enrolled, &scanned, 0);
    assert!(r.matched);
    assert_eq!(r.username, "alfian");
    assert_eq!(r.threshold, 0);
    let enrolled = Enrollment {
        username: "alfian".to_string(),
        finger: "right".to_string(),
        template: Template::Raw(vec![]),
    };
    let r = verify_response(enrolled, &scanned, 0);
    assert!(!r.matched);
    assert_eq!(r.score, 0);
}

#[test]
fn identify_responses() {
    let u = unmatched_response(40, 0);
    assert!(!u.matched && u.username.is_none() && u.score.is_none());
    assert_eq!((u.threshold, u.gallery_count), (40, 0));
    let gallery = vec![
        Enrollment { username: "raw".into(), finger: "f".into(), template: Template::Raw(vec![]) },
        Enrollment {
            username: "alfian".into(),
            finger: "right".into(),
            template: Template::Nbis(sample_minutiae()),
        },
    ];
    let scanned = Template::Nbis(sample_minutiae());
    let r = identify_response(&gallery, &scanned, 0);
    assert!(r.matched);
    assert_eq!(r.username.as_deref(), Some("alfian"));
    assert_eq!(r.finger.as_deref(), Some("right"));
    assert!(r.score.is_some());
    assert_eq!(r.gallery_count, 2);
    let r = identify_response(&gallery, &scanned, u32::MAX);
    assert!(!r.matched);
    assert_eq!(r.gallery_count, 2);
}

#[test]
fn enroll_responses() {
    let enrollment = Enrollment {
        username: "alfian".to_string(),
        finger: "right".to_string(),
        template: Template::Nbis(vec![vec![m(1, 1, 1), m(2, 2, 2)], vec![m(3, 3, 3)]]),
    };
    let template = tauri_plugin_fingerprint::template::to_json_template(&enrollment).unwrap();
    let r = enroll_response(enrollment, template, Some("/p/alfian.fpt".into()), vec![], 4, 7);
    assert_eq!(r.username, "alfian");
    assert_eq!(r.minutiae_count, 3);
    assert_eq!(r.scan_count, 4);
    assert_eq!(r.template_sample_count, 7);
    assert_eq!(r.path.as_deref(), Some("/p/alfian.fpt"));
    assert_eq!(r.template.samples.len(), 2);
}

#[test]
fn command_error_texts() {
    assert_eq!(Error::InvalidInput("x".into()).message(), "input tidak valid: x");
    assert_eq!(Error::Task("y".into()).message(), "operasi fingerprint gagal dijalankan: y");
    assert_eq!(
        Error::UnsupportedPlatform.message(),
        "fingerprint USB hanya didukung di macOS, Linux, dan Windows"
    );
    assert_eq!(Error::Io("disk".into()).message(), "disk");
    assert_eq!(Error::Fingerprint("z".into()).message(), "z");
    assert_eq!(
        Error::from_device(uru4500::Error::DeviceDeath).message(),
        "device mengirim interrupt 0x0800 (scan gagal)"
    );
    assert_eq!(
        Error::from_template(tauri_plugin_fingerprint::template::Error::NoMinutiae).message(),
        "tidak ada minutiae yang terdeteksi \u{2014} tempelkan jari lebih penuh"
    );
}

#[test]
fn stored_names_are_found() {
    for name in ["alfian", "budi_01", "Ünal-2"] {
        let file = template_file_name(name).unwrap();
        assert!(tauri_plugin_fingerprint::template::is_template_file(&file));
    }
}

#[test]
fn identified_and_verified_responses() {
    let gallery = vec![
        Enrollment { username: "a".into(), finger: "f1".into(), template: Template::Undefined },
        Enrollment { username: "b".into(), finger: "f2".into(), template: Template::Undefined },
    ];
    let r = identified_response(&gallery, Some(1), Some(77), 40);
    assert!(r.matched);
    assert_eq!(r.username.as_deref(), Some("b"));
    assert_eq!(r.finger.as_deref(), Some("f2"));
    assert_eq!(r.score, Some(77));
    assert_eq!((r.threshold, r.gallery_count), (40, 2));
    let r = identified_response(&gallery, None, None, 40);
    assert!(!r.matched && r.username.is_none() && r.score.is_none());
    let enrolled = Enrollment { username: "a".into(), finger: "f".into(), template: Template::Undefined };
    let v = verified_response(enrolled, false, None, 12);
    assert_eq!((v.matched, v.score, v.threshold), (false, 0, 12));
    assert_eq!(v.username, "a");
}

#[test]
fn picks_from_counts() {
    assert_eq!(pick_of_counts(&[0, 5, 5, 2]).unwrap(), (2, 5));
    assert_eq!(
        fingerprint(pick_of_counts(&[0, 0]).err().unwrap()),
        "tidak ada minutiae \u{2014} tempelkan jari lebih penuh"
    );
    assert_eq!(touch_of_counts(&[25, 10, 30, 25]).unwrap(), (2, vec![2, 0, 3]));
    assert_eq!(touch_of_counts(&[5, 7, 7]).unwrap(), (2, vec![2]));
    assert!(touch_of_counts(&[]).is_err());
}

#[test]
fn awaited_interrupts() {
    assert!(irq_awaited(0x0101, Some(0x0101)));
    assert!(!irq_awaited(0x0101, Some(0x0200)));
    assert!(!irq_awaited(0x0101, None));
}
