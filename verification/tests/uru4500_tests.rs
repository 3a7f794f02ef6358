use tauri_plugin_fingerprint::uru4500::{
    assemble, decode_irq, do_decode, first_register, frame_image, is_reader, is_scrambled,
    noisiness, normalize, parse_frame, pgm_bytes, update_key, version_from_info,
    DescrambleStatus, Descrambler, Error, PowerAction, PowerEvent, PowerFailure, PowerPhase,
    PowerUp, BLOCKF_CHANGE_KEY, BLOCKF_ENCRYPTED, BLOCKF_NOT_PRESENT, HEADER_LEN, IMAGE_HEIGHT,
    IMAGE_WIDTH, IRQ_DEATH, IRQ_SCANPWR_ON, TRANSFER_LEN,
};

fn protocol_text(e: Error) -> String {
    match e {
        Error::Protocol(m) => m,
        other => panic!("expected a protocol error, got {other:?}"),
    }
}

#[test]
fn update_key_steps_the_lfsr() {
    assert_eq!(update_key(0), 0);
    assert_eq!(update_key(1), 0x8000_0000);
    assert_eq!(update_key(0x1234_5678), 0x091a_2b3c);
    assert_eq!(update_key(0xffff_ffff), 0xffff_ffff);
    assert_eq!(update_key(0x9248_144d), 0xc924_0a26);
}

#[test]
fn do_decode_shifts_and_xors() {
    let mut data = [1u8, 2, 3, 4, 5];
    let next = do_decode(&mut data, 0x1234_5678);
    assert_eq!(data, [59, 68, 23, 17, 0]);
    assert_eq!(next, 0x1091_a2b3);
    let mut empty: [u8; 0] = [];
    assert_eq!(do_decode(&mut empty, 77), 77);
}

#[test]
fn normalize_rotates_and_inverts() {
    let img: Vec<u8> = (0..IMAGE_WIDTH * 2).map(|i| (i % 256) as u8).collect();
    let out = normalize(img.clone());
    assert_eq!(out.len(), img.len());
    for k in 0..out.len() {
        assert_eq!(out[k], 255 - img[img.len() - 1 - k]);
    }
    assert_eq!(normalize(normalize(img.clone())), img);
}

#[test]
fn normalize_partial_last_row() {
    let img: Vec<u8> = (0..IMAGE_WIDTH + 2).map(|i| (i % 251) as u8).collect();
    let out = normalize(img.clone());
    assert_eq!(out[0], 255 - img[IMAGE_WIDTH + 1]);
    assert_eq!(out[1], 255 - img[IMAGE_WIDTH]);
    assert_eq!(out[2], 255 - img[IMAGE_WIDTH - 1]);
    assert_eq!(out[IMAGE_WIDTH + 1], 255 - img[0]);
    for k in 0..out.len() {
        assert_eq!(out[k], 255 - img[img.len() - 1 - k]);
    }
    assert_eq!(normalize(out), img);
}

fn frame_with_lines(lines: usize) -> Vec<u8> {
    let mut raw = vec![0u8; TRANSFER_LEN];
    for l in 0..lines {
        for x in 0..IMAGE_WIDTH {
            raw[HEADER_LEN + l * IMAGE_WIDTH + x] = (l + 1) as u8;
        }
    }
    raw
}

#[test]
fn assemble_lays_out_blocks() {
    let raw = frame_with_lines(4);
    let blocks = [(0u8, 2usize), (BLOCKF_NOT_PRESENT, 1), (0, 1), (0, 0), (0, 5)];
    let out = assemble(&raw, &blocks, 5);
    assert_eq!(out.len(), IMAGE_WIDTH * IMAGE_HEIGHT);
    let row = |r: usize| out[r * IMAGE_WIDTH];
    assert_eq!([row(0), row(1), row(2), row(3), row(4)], [1, 2, 3, 3, 0]);
    let img = frame_image(&raw, &blocks, 5);
    assert_eq!(img.len(), IMAGE_WIDTH * IMAGE_HEIGHT);
    assert_eq!(img, normalize(out));
}

#[test]
fn assemble_stops_at_line_count() {
    let raw = frame_with_lines(3);
    let out = assemble(&raw, &[(0, 1), (0, 1), (0, 1)], 2);
    assert_eq!(out[0], 1);
    assert_eq!(out[IMAGE_WIDTH], 2);
    assert_eq!(out[2 * IMAGE_WIDTH], 0);
}

#[test]
fn noisiness_of_two_lines() {
    let mut raw = vec![0u8; TRANSFER_LEN];
    for x in 0..IMAGE_WIDTH {
        raw[HEADER_LEN + IMAGE_WIDTH + x] = ((x % 2) * 200) as u8;
    }
    assert_eq!(noisiness(&raw, &[(0, 2)]), 10000);
    assert_eq!(noisiness(&raw, &[(BLOCKF_NOT_PRESENT, 5), (0, 1), (0, 1)]), 10000);
    assert_eq!(noisiness(&raw, &[(0, 1)]), 0);
    assert_eq!(noisiness(&raw, &[]), 0);
}

#[test]
fn parse_frame_checks_sizes() {
    assert_eq!(protocol_text(parse_frame(vec![0; 63]).err().unwrap()), "citra cuma 63 byte");
    let mut header = vec![0u8; 64];
    header[4] = 2;
    assert_eq!(
        protocol_text(parse_frame(header.clone()).err().unwrap()),
        "citra rusak: 2 baris, 64 byte"
    );
    header[4] = 0x22;
    header[5] = 0x01;
    let mut big = header.clone();
    big.resize(TRANSFER_LEN + 10, 0);
    assert_eq!(
        protocol_text(parse_frame(big).err().unwrap()),
        format!("citra rusak: 290 baris, {} byte", TRANSFER_LEN + 10)
    );
}

#[test]
fn parse_frame_reads_header() {
    let mut buf = vec![0u8; HEADER_LEN + 3 * IMAGE_WIDTH];
    buf[4] = 3;
    buf[6] = 9;
    buf[16] = BLOCKF_ENCRYPTED;
    buf[17] = 3;
    buf[18] = 0x80;
    buf[19] = 7;
    let f = parse_frame(buf).unwrap();
    assert_eq!(f.raw.len(), TRANSFER_LEN);
    assert_eq!(f.num_lines, 3);
    assert_eq!(f.key_number, 9);
    assert_eq!(f.blocks.len(), 15);
    assert_eq!(f.blocks[0], (BLOCKF_ENCRYPTED, 3));
    assert_eq!(f.blocks[1], (0x80, 7));
    assert_eq!(f.blocks[2], (0, 0));
}

#[test]
fn interrupts() {
    assert_eq!(decode_irq(&[0x56, 0xaa, 0, 0]).unwrap(), IRQ_SCANPWR_ON);
    assert_eq!(decode_irq(&[0x01, 0x01]).unwrap(), 0x0101);
    match decode_irq(&[0x08, 0x00]) {
        Err(Error::DeviceDeath) => {}
        _ => panic!("expected the interrupt of death"),
    }
    assert_eq!(IRQ_DEATH, 0x0800);
    assert_eq!(protocol_text(decode_irq(&[7]).err().unwrap()), "interrupt cuma 1 byte");
}

#[test]
fn registers_and_version() {
    assert_eq!(first_register(7, &[0x85, 1]).unwrap(), 0x85);
    assert_eq!(protocol_text(first_register(7, &[]).err().unwrap()), "register 0x7 balik kosong");
    assert_eq!(protocol_text(first_register(0xf0, &[]).err().unwrap()), "register 0xf0 balik kosong");
    let mut info = [0u8; 16];
    info[10] = 0x12;
    info[11] = 0x34;
    info[4] = 0xab;
    info[5] = 0x0c;
    assert_eq!(version_from_info(&info).unwrap(), "1234 / ab0c");
    assert_eq!(protocol_text(version_from_info(&info[..11]).err().unwrap()), "device info terlalu pendek");
}

#[test]
fn power_up_plain_sequence() {
    let (mut p, a) = PowerUp::start();
    assert_eq!(a, PowerAction::ReadStatus);
    assert_eq!(p.step(PowerEvent::Status(0x05)), PowerAction::WriteStatus(0x85));
    assert_eq!(p.step(PowerEvent::Written), PowerAction::WriteStatus(0x05));
    assert_eq!(p.step(PowerEvent::Written), PowerAction::ReadStatus);
    assert_eq!(p.step(PowerEvent::Status(0x85)), PowerAction::Pause);
    assert_eq!(p.step(PowerEvent::Paused), PowerAction::WriteStatus(0x05));
    assert_eq!(p.step(PowerEvent::Written), PowerAction::ReadStatus);
    assert_eq!(p.step(PowerEvent::Status(0x05)), PowerAction::AwaitScanPower);
    assert_eq!(p.step(PowerEvent::ScanPower(true)), PowerAction::Ready);
    assert_eq!(p.phase, PowerPhase::Finished);
}

#[test]
fn power_up_reboots_a_confused_device() {
    let (mut p, _) = PowerUp::start();
    assert_eq!(p.step(PowerEvent::Status(0x84)), PowerAction::WriteStatus(0x04));
    assert_eq!(p.step(PowerEvent::Written), PowerAction::ReadStatus);
    assert_eq!(p.step(PowerEvent::Status(0x80)), PowerAction::Pause);
    assert_eq!(p.step(PowerEvent::Paused), PowerAction::ReadStatus);
    assert_eq!(p.step(PowerEvent::Status(0x81)), PowerAction::WriteStatus(0x01));
}

#[test]
fn power_up_gives_up() {
    let (mut p, _) = PowerUp::start();
    p.step(PowerEvent::Status(0x84));
    p.step(PowerEvent::Written);
    for _ in 0..99 {
        assert_eq!(p.step(PowerEvent::Status(0)), PowerAction::Pause);
        assert_eq!(p.step(PowerEvent::Paused), PowerAction::ReadStatus);
    }
    assert_eq!(p.step(PowerEvent::Status(0)), PowerAction::Pause);
    let a = p.step(PowerEvent::Paused);
    assert_eq!(a, PowerAction::Fail(PowerFailure::RebootFailed));
    match PowerFailure::RebootFailed.error() {
        Error::Protocol(m) => assert_eq!(m, "gagal reboot power device"),
        _ => panic!("expected a protocol error"),
    }
    match PowerFailure::PowerUpRefused.error() {
        Error::Protocol(m) => assert_eq!(m, "device tidak mau power up"),
        _ => panic!("expected a protocol error"),
    }
}

#[test]
fn power_up_three_attempts() {
    let (mut p, _) = PowerUp::start();
    for attempt in 1..=3 {
        assert_eq!(p.attempt, attempt);
        assert_eq!(p.step(PowerEvent::Status(0x80)), PowerAction::WriteStatus(0x00));
        assert_eq!(p.step(PowerEvent::Written), PowerAction::ReadStatus);
        assert_eq!(p.step(PowerEvent::Status(0x00)), PowerAction::AwaitScanPower);
        let a = p.step(PowerEvent::ScanPower(false));
        if attempt < 3 {
            assert_eq!(a, PowerAction::ReadStatus);
        } else {
            assert_eq!(a, PowerAction::Fail(PowerFailure::ScanPowerTimeout));
        }
    }
    assert_eq!(PowerFailure::ScanPowerTimeout.error().message(), "timeout menunggu scan power");
}

#[test]
fn scrambled_frames_and_readers() {
    let mut raw = vec![0u8; TRANSFER_LEN];
    assert!(!is_scrambled(&raw, &[(0, 2)]));
    for x in 0..IMAGE_WIDTH {
        raw[HEADER_LEN + IMAGE_WIDTH + x] = ((x % 2) * 200) as u8;
    }
    assert!(is_scrambled(&raw, &[(0, 2)]));
    assert!(is_reader(0x05ba, 0x000a));
    assert!(!is_reader(0x05ba, 0x000b));
}

#[test]
fn device_error_texts() {
    assert_eq!(Error::NotFound.message(), "U.are.U 4500 (05ba:000a) tidak ditemukan di bus USB");
    assert_eq!(Error::Usb("busy".to_string()).message(), "usb: busy");
    assert_eq!(Error::Transfer("stall".to_string()).message(), "transfer: stall");
    assert_eq!(Error::Timeout("jari ditempel".to_string()).message(), "timeout menunggu jari ditempel");
    assert_eq!(Error::Protocol("x".to_string()).message(), "protokol: x");
    assert_eq!(Error::DeviceDeath.message(), "device mengirim interrupt 0x0800 (scan gagal)");
}

#[test]
fn pgm_file_bytes() {
    let out = pgm_bytes(&[1, 2]);
    let mut expected = b"P5\n384 290\n255\n".to_vec();
    expected.extend_from_slice(&[1, 2]);
    assert_eq!(out, expected);
}

#[test]
fn descrambler_asks_for_keys() {
    let mut d = Descrambler::new(0x1234_5678, 1);
    assert_eq!(d.key_request(), vec![1, 81, 145, 113, 11]);
    assert_eq!(d.seed, 0x0b71_9151);
    assert_eq!(d.rounds, 1);
}

#[test]
fn descrambler_decodes_an_encrypted_block() {
    let mut d = Descrambler::new(0x1234_5678, 1);
    d.key_request();
    let mut raw = vec![0u8; TRANSFER_LEN];
    let mut blocks = vec![(BLOCKF_ENCRYPTED, 1usize), (0, 0)];
    let status = d.apply_key(&mut raw, &mut blocks, &[0x78, 0x56, 0x34, 0x12], 1).unwrap();
    assert_eq!(status, DescrambleStatus::Finished);
    assert_eq!(&raw[HEADER_LEN..HEADER_LEN + 6], &[90, 43, 10, 228, 93, 133]);
    assert_eq!(&raw[HEADER_LEN + 382..HEADER_LEN + 384], &[224, 0]);
    assert_eq!(raw[HEADER_LEN + 384], 0);
}

#[test]
fn descrambler_change_key_and_errors() {
    let mut d = Descrambler::new(5, 3);
    d.key_request();
    let mut raw = vec![0u8; TRANSFER_LEN];
    let mut blocks = vec![(BLOCKF_CHANGE_KEY | BLOCKF_ENCRYPTED, 1usize)];
    let status = d.apply_key(&mut raw, &mut blocks, &[0, 0, 0, 0], 1).unwrap();
    assert_eq!(status, DescrambleStatus::NeedsNewKey);
    assert_eq!(blocks[0], (BLOCKF_ENCRYPTED, 1));
    assert_eq!(d.key_number, 4);

    let short = d.apply_key(&mut raw, &mut blocks, &[1, 2, 3], 1);
    assert_eq!(protocol_text(short.err().unwrap()), "kunci scramble < 4 byte");

    let mut big = vec![(0u8, 291usize)];
    let over = d.apply_key(&mut raw, &mut big, &[0, 0, 0, 0], 1);
    assert_eq!(protocol_text(over.err().unwrap()), "blok 0 (291 baris) melewati batas citra");
}

#[test]
fn descrambler_gives_up_after_sixteen_rounds() {
    let mut d = Descrambler::new(0, 0);
    let mut raw = vec![0u8; TRANSFER_LEN];
    for round in 1..=16 {
        d.key_request();
        let mut blocks = vec![(BLOCKF_CHANGE_KEY, 1usize)];
        let r = d.apply_key(&mut raw, &mut blocks, &[0, 0, 0, 0], 1);
        if round < 16 {
            assert_eq!(r.unwrap(), DescrambleStatus::NeedsNewKey);
        } else {
            assert_eq!(protocol_text(r.err().unwrap()), "device terus minta ganti kunci");
        }
    }
}
