use tauri_plugin_fingerprint::template::{
    best_frame, frame_minutiae, good_frames, minutiae_count, template_from_image, Enrollment,
    Template,
};
use tauri_plugin_fingerprint::uru4500::{IMAGE_HEIGHT, IMAGE_WIDTH};

/// A synthetic print: concentric ridges about 9 pixels apart, with the
/// ridges of the right half shifted by half a period, which makes ridge
/// endings along the seam.
fn synthetic_print() -> Vec<u8> {
    let mut img = vec![255u8; IMAGE_WIDTH * IMAGE_HEIGHT];
    let (cx, cy) = (IMAGE_WIDTH as f64 / 2.0, IMAGE_HEIGHT as f64 / 2.0);
    for y in 0..IMAGE_HEIGHT {
        for x in 0..IMAGE_WIDTH {
            let (dx, dy) = (x as f64 - cx, y as f64 - cy);
            let r = (dx * dx + dy * dy).sqrt();
            let shift = if x as f64 > cx { 4.5 } else { 0.0 };
            let phase = ((r + shift) / 9.0 * std::f64::consts::TAU).cos();
            img[y * IMAGE_WIDTH + x] = if phase > 0.0 { 30 } else { 220 };
        }
    }
    img
}

#[test]
fn synthetic_print_yields_minutiae() {
    let img = synthetic_print();
    let n = frame_minutiae(&img);
    assert!(n > 0);
    match template_from_image(&img) {
        Ok(t) => {
            assert_eq!(minutiae_count(&t), n);
            match t {
                Template::Nbis(samples) => assert_eq!(samples.len(), 1),
                _ => panic!("expected an NBIS template"),
            }
        }
        Err(e) => panic!("expected a template, got {e:?}"),
    }
    let blank = vec![255u8; IMAGE_WIDTH * IMAGE_HEIGHT];
    assert_eq!(best_frame(&[blank.clone(), img.clone(), blank]), Some((1, n)));
    let e = Enrollment::from_images("alfian", "right", &[img.clone(), vec![0u8; 5]]).unwrap();
    assert_eq!(e.minutiae_count(), n);
    let good = good_frames(&[img]);
    assert_eq!(good.len(), if n >= 20 { 1 } else { 0 });
}
