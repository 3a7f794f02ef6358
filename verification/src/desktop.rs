//! The rules of the plugin's commands: input validation, frame selection,
//! and the responses built from what the reader delivered.

use vstd::prelude::*;

use crate::error::Error;
use crate::models::{
    CaptureFramesRequest, CaptureResponse, CapturedFrame, DeviceInfo, DeviceStatus, EnrollRequest,
    EnrollResponse, FingerprintTemplate, IdentifyResponse, TemplateMinutia, VerifyResponse,
};
use crate::template::{
    self, accepted_frames, best_count, best_of_counts, capped, comparable, copy_template,
    enrollment_of_json, frames_view, gallery_view, good_counts, good_of_counts,
    json_of, minutiae_counts, possible_count, possible_counts, reader_detection, total_minutiae, Enrollment,
    EnrollmentView, Template,
    TemplateModel, fpt1_parse, fpt1_round_trip, fpt1_text, line_safe, template_file,
    DEFAULT_THRESHOLD, MIN_MINUTIAE,
};
use crate::text::{
    decimal_nat, has_visible, has_visible_char, hex_fixed, push_decimal_u64, push_hex_fixed, string_of,
};
use crate::uru4500::{self, IMAGE_HEIGHT, IMAGE_PPI, IMAGE_WIDTH, PID, VID};

verus! {

/// How long to wait for a finger when a request names no time, in seconds.
pub const DEFAULT_WAIT_SECS: u64 = 60;
/// The longest wait a request may ask for, in seconds.
pub const MAX_WAIT_SECS: u64 = 300;
/// How many touches an enrollment takes when the request names no number.
pub const DEFAULT_ENROLL_SAMPLES: usize = 4;
/// The most touches an enrollment may ask for.
pub const MAX_ENROLL_SAMPLES: usize = 10;
/// How many frames are read while a finger rests on the reader.
pub const FRAMES_PER_TOUCH: usize = 3;
/// How many frames a diagnostic capture reads when the request names no number.
pub const DEFAULT_DIAGNOSTIC_FRAMES: usize = 5;
/// The most frames a diagnostic capture may ask for.
pub const MAX_DIAGNOSTIC_FRAMES: usize = 20;
/// The longest user name, in bytes of UTF-8.
pub const MAX_USERNAME_BYTES: usize = 128;

/// The number a request asks for, or `default` when it names none.
pub open spec fn requested<T>(value: Option<T>, default: T) -> T {
    match value {
        Some(v) => v,
        None => default,
    }
}

/// The text of the error for a number outside `1..=max`.
pub open spec fn range_text(name: Seq<char>, max: nat) -> Seq<char> {
    name + " harus antara 1 dan "@ + decimal_nat(max)
}

/// The wait for a finger, in seconds: the requested one, or
/// `DEFAULT_WAIT_SECS`; it must lie in `1..=MAX_WAIT_SECS`.
pub fn wait_duration(seconds: Option<u64>) -> (r: Result<u64, Error>)
    ensures
        1 <= requested(seconds, DEFAULT_WAIT_SECS) <= MAX_WAIT_SECS ==> r == Ok::<u64, Error>(
            requested(seconds, DEFAULT_WAIT_SECS),
        ),
        !(1 <= requested(seconds, DEFAULT_WAIT_SECS) <= MAX_WAIT_SECS) ==> (r matches Err(
            Error::InvalidInput(m),
        ) && m@ == range_text("timeoutSecs"@, MAX_WAIT_SECS as nat)),
{
    let s = match seconds {
        Some(s) => s,
        None => DEFAULT_WAIT_SECS,
    };
    if !(1 <= s && s <= MAX_WAIT_SECS) {
        let mut m = string_of("timeoutSecs harus antara 1 dan ");
        push_decimal_u64(&mut m, MAX_WAIT_SECS);
        proof {
            reveal_strlit("timeoutSecs harus antara 1 dan ");
            reveal_strlit("timeoutSecs");
            reveal_strlit(" harus antara 1 dan ");
            assert("timeoutSecs harus antara 1 dan "@ =~= "timeoutSecs"@ + " harus antara 1 dan "@);
        }
        return Err(Error::InvalidInput(m));
    }
    Ok(s)
}

/// The number of frames of a diagnostic capture: the requested one, or
/// `DEFAULT_DIAGNOSTIC_FRAMES`; it must lie in `1..=MAX_DIAGNOSTIC_FRAMES`.
pub fn diagnostic_frame_count(count: Option<usize>) -> (r: Result<usize, Error>)
    ensures
        1 <= requested(count, DEFAULT_DIAGNOSTIC_FRAMES) <= MAX_DIAGNOSTIC_FRAMES ==> r == Ok::<
            usize,
            Error,
        >(requested(count, DEFAULT_DIAGNOSTIC_FRAMES)),
        !(1 <= requested(count, DEFAULT_DIAGNOSTIC_FRAMES) <= MAX_DIAGNOSTIC_FRAMES) ==> (r matches Err(
            Error::InvalidInput(m),
        ) && m@ == range_text("count"@, MAX_DIAGNOSTIC_FRAMES as nat)),
{
    let n = match count {
        Some(n) => n,
        None => DEFAULT_DIAGNOSTIC_FRAMES,
    };
    if !(1 <= n && n <= MAX_DIAGNOSTIC_FRAMES) {
        let mut m = string_of("count harus antara 1 dan ");
        push_decimal_u64(&mut m, MAX_DIAGNOSTIC_FRAMES as u64);
        proof {
            reveal_strlit("count harus antara 1 dan ");
            reveal_strlit("count");
            reveal_strlit(" harus antara 1 dan ");
            assert("count harus antara 1 dan "@ =~= "count"@ + " harus antara 1 dan "@);
        }
        return Err(Error::InvalidInput(m));
    }
    Ok(n)
}

/// The number of touches of an enrollment: the requested one, or
/// `DEFAULT_ENROLL_SAMPLES`; it must lie in `1..=MAX_ENROLL_SAMPLES`.
pub fn enroll_scan_count(samples: Option<usize>) -> (r: Result<usize, Error>)
    ensures
        1 <= requested(samples, DEFAULT_ENROLL_SAMPLES) <= MAX_ENROLL_SAMPLES ==> r == Ok::<
            usize,
            Error,
        >(requested(samples, DEFAULT_ENROLL_SAMPLES)),
        !(1 <= requested(samples, DEFAULT_ENROLL_SAMPLES) <= MAX_ENROLL_SAMPLES) ==> (r matches Err(
            Error::InvalidInput(m),
        ) && m@ == range_text("samples"@, MAX_ENROLL_SAMPLES as nat)),
{
    let n = match samples {
        Some(n) => n,
        None => DEFAULT_ENROLL_SAMPLES,
    };
    if !(1 <= n && n <= MAX_ENROLL_SAMPLES) {
        let mut m = string_of("samples harus antara 1 dan ");
        push_decimal_u64(&mut m, MAX_ENROLL_SAMPLES as u64);
        proof {
            reveal_strlit("samples harus antara 1 dan ");
            reveal_strlit("samples");
            reveal_strlit(" harus antara 1 dan ");
            assert("samples harus antara 1 dan "@ =~= "samples"@ + " harus antara 1 dan "@);
        }
        return Err(Error::InvalidInput(m));
    }
    Ok(n)
}

/// A finger name must hold something besides white space.
pub fn validate_finger(finger: &str) -> (r: Result<(), Error>)
    ensures
        has_visible(finger@) ==> r is Ok,
        !has_visible(finger@) ==> (r matches Err(Error::InvalidInput(m)) && m@
            == "finger tidak boleh kosong"@),
{
    let chars = crate::text::chars_of(finger);
    if !has_visible_char(chars.as_slice()) {
        return Err(Error::InvalidInput(string_of("finger tidak boleh kosong")));
    }
    Ok(())
}

/// Whether a character beyond ASCII is alphabetic or numeric in the sense
/// of the Unicode `Alphabetic` property and the `Nd`, `Nl` and `No`
/// categories, as `char::is_alphanumeric` decides it.
pub uninterp spec fn unicode_alphanumeric(c: char) -> bool;

/// Whether `c` is an ASCII letter or digit.
pub open spec fn ascii_alphanumeric(c: char) -> bool {
    let u = c as u32;
    (48 <= u <= 57) || (65 <= u <= 90) || (97 <= u <= 122)
}

/// Whether `c` is alphanumeric (`char::is_alphanumeric`): among ASCII
/// characters exactly the letters and digits.
pub open spec fn alphanumeric_char(c: char) -> bool {
    if (c as u32) < 128 {
        ascii_alphanumeric(c)
    } else {
        unicode_alphanumeric(c)
    }
}

/// `char::is_alphanumeric`. For ASCII its documentation (alphabetic or
/// numeric) gives exactly the letters and digits; beyond ASCII the answer
/// is named by `unicode_alphanumeric`, a function of the character alone.
#[verifier::external_body]
fn alphanumeric(c: char) -> (b: bool)
    ensures
        (c as u32) < 128 ==> b == ascii_alphanumeric(c),
        (c as u32) >= 128 ==> b == unicode_alphanumeric(c),
{
    c.is_alphanumeric()
}

/// Whether a character may stand in a user name.
pub open spec fn username_char(c: char) -> bool {
    alphanumeric_char(c) || c == '-' || c == '_'
}

/// Whether every character may stand in a user name.
pub open spec fn username_chars(name: Seq<char>) -> bool {
    forall|i: int| 0 <= i < name.len() ==> username_char(#[trigger] name[i])
}

/// Why a user name is refused, if it is: it must be non-empty, at most
/// `MAX_USERNAME_BYTES` bytes of UTF-8, and made of letters, digits, `-`
/// and `_`.
pub open spec fn username_rejection(name: Seq<char>) -> Option<Seq<char>> {
    if name.len() == 0 {
        Some("username tidak boleh kosong"@)
    } else if vstd::utf8::encode_utf8(name).len() > MAX_USERNAME_BYTES {
        Some("username maksimal 128 karakter"@)
    } else if !username_chars(name) {
        Some("username hanya boleh berisi huruf, angka, '-' dan '_'"@)
    } else {
        None
    }
}

/// Among ASCII characters, exactly the letters of either case, the digits,
/// `-` and `_` may stand in a user name.
pub proof fn ascii_username_chars(c: char)
    requires
        (c as u32) < 128,
    ensures
        username_char(c) <==> ('a' <= c <= 'z' || 'A' <= c <= 'Z' || '0' <= c <= '9' || c == '-'
            || c == '_'),
{
}

/// Beyond ASCII, a character may stand in a user name exactly when
/// `char::is_alphanumeric` holds of it.
pub proof fn non_ascii_username_chars(c: char)
    requires
        (c as u32) >= 128,
    ensures
        username_char(c) <==> unicode_alphanumeric(c),
{
}

/// A name holding an ASCII character other than a letter, a digit, `-` or
/// `_` (a space, a `.`, a `/`) is refused.
pub proof fn other_ascii_chars_are_refused(name: Seq<char>, i: int)
    requires
        0 <= i < name.len(),
        (name[i] as u32) < 128,
        !('a' <= name[i] <= 'z' || 'A' <= name[i] <= 'Z' || '0' <= name[i] <= '9' || name[i] == '-'
            || name[i] == '_'),
    ensures
        username_rejection(name) is Some,
{
    ascii_username_chars(name[i]);
}

/// A non-empty name of at most `MAX_USERNAME_BYTES` bytes made of ASCII
/// letters of either case, digits, `-` and `_` is accepted.
pub proof fn ascii_usernames_are_accepted(name: Seq<char>)
    requires
        name.len() > 0,
        vstd::utf8::encode_utf8(name).len() <= MAX_USERNAME_BYTES,
        forall|i: int|
            0 <= i < name.len() ==> ('a' <= #[trigger] name[i] <= 'z' || 'A' <= name[i] <= 'Z' || '0'
                <= name[i] <= '9' || name[i] == '-' || name[i] == '_'),
    ensures
        username_rejection(name) is None,
{
    assert forall|i: int| 0 <= i < name.len() implies username_char(#[trigger] name[i]) by {
        ascii_username_chars(name[i]);
    }
}

/// Checks a user name, which names a file (see `username_rejection`).
pub fn validate_username(username: &str) -> (r: Result<(), Error>)
    ensures
        match username_rejection(username@) {
            None => r is Ok,
            Some(text) => r matches Err(Error::InvalidInput(m)) && m@ == text,
        },
{
    if username.is_empty() {
        return Err(Error::InvalidInput(string_of("username tidak boleh kosong")));
    }
    if username.as_bytes().len() > MAX_USERNAME_BYTES {
        return Err(Error::InvalidInput(string_of("username maksimal 128 karakter")));
    }
    let chars = crate::text::chars_of(username);
    let mut i: usize = 0;
    while i < chars.len()
        invariant
            chars@ == username@,
            username@.len() > 0,
            vstd::utf8::encode_utf8(username@).len() <= MAX_USERNAME_BYTES,
            i <= chars@.len(),
            forall|k: int| 0 <= k < i ==> username_char(#[trigger] chars@[k]),
        decreases chars@.len() - i,
    {
        let c = chars[i];
        if !(alphanumeric(c) || c == '-' || c == '_') {
            assert(!username_char(chars@[i as int]));
            return Err(
                Error::InvalidInput(
                    string_of("username hanya boleh berisi huruf, angka, '-' dan '_'"),
                ),
            );
        }
        i = i + 1;
    }
    Ok(())
}

/// Whether no frame of a touch yielded any minutiae.
pub open spec fn no_minutiae(counts: Seq<usize>) -> bool {
    forall|j: int| 0 <= j < counts.len() ==> #[trigger] counts[j] == 0
}

/// The text of the error for a touch that yielded no minutiae.
pub open spec fn no_minutiae_text() -> Seq<char> {
    "tidak ada minutiae \u{2014} tempelkan jari lebih penuh"@
}

/// Whether `r` is what a scan keeps given the minutiae counts of a touch's
/// frames: the best frame, as `(index, minutiae)`, or an error when no frame
/// has minutiae.
pub open spec fn pick_outcome(counts: Seq<usize>, r: Result<(usize, usize), Error>) -> bool {
    &&& no_minutiae(counts) ==> (r matches Err(Error::Fingerprint(m)) && m@ == no_minutiae_text())
    &&& !no_minutiae(counts) ==> (r matches Ok(p) && best_count(counts, Some(p)))
}

/// The frame a scan keeps, given the minutiae counts of a touch's frames.
pub fn pick_of_counts(counts: &[usize]) -> (r: Result<(usize, usize), Error>)
    ensures
        pick_outcome(counts@, r),
{
    match best_of_counts(counts) {
        Some(p) => Ok(p),
        None => Err(
            Error::Fingerprint(string_of("tidak ada minutiae \u{2014} tempelkan jari lebih penuh")),
        ),
    }
}

/// The frame a scan keeps from the frames of one touch: the best one, as
/// `(index, minutiae)`, or an error when no frame has minutiae.
pub fn scan_pick(frames: &[Vec<u8>]) -> (r: Result<(usize, usize), Error>)
    ensures
        exists|counts: Seq<usize>|
            #![trigger possible_counts(frames@, counts)]
            possible_counts(frames@, counts) && pick_outcome(counts, r),
{
    let counts = minutiae_counts(frames);
    let r = pick_of_counts(counts.as_slice());
    assert(possible_counts(frames@, counts@) && pick_outcome(counts@, r));
    r
}

/// Whether `picks` lists the frames with at least `MIN_MINUTIAE` minutiae,
/// each once, most minutiae first and in frame order among equals.
pub open spec fn good_order(counts: Seq<usize>, picks: Seq<usize>) -> bool {
    &&& forall|k: int|
        0 <= k < picks.len() ==> #[trigger] picks[k] < counts.len() && counts[picks[k] as int]
            >= MIN_MINUTIAE
    &&& forall|i: int|
        0 <= i < counts.len() && #[trigger] counts[i] >= MIN_MINUTIAE ==> exists|k: int|
            0 <= k < picks.len() && #[trigger] picks[k] == i
    &&& forall|k: int, l: int|
        0 <= k < l < picks.len() ==> counts[#[trigger] picks[k] as int]
            > counts[#[trigger] picks[l] as int] || (counts[picks[k] as int]
            == counts[picks[l] as int] && picks[k] < picks[l])
}

/// Whether some frame has at least `MIN_MINUTIAE` minutiae.
pub open spec fn any_good(counts: Seq<usize>) -> bool {
    exists|i: int| 0 <= i < counts.len() && #[trigger] counts[i] >= MIN_MINUTIAE
}

/// Whether `r` is what one touch contributes to an enrollment given the
/// minutiae counts of its frames: the best frame (shown as a preview), and
/// the frames the template is built from, which are the good frames, most
/// minutiae first, or the best frame alone when none is good enough; an
/// error when no frame has minutiae.
pub open spec fn touch_outcome(counts: Seq<usize>, r: Result<(usize, Vec<usize>), Error>) -> bool {
    &&& no_minutiae(counts) ==> (r matches Err(Error::Fingerprint(m)) && m@ == no_minutiae_text())
    &&& !no_minutiae(counts) ==> (r matches Ok((best, picks)) && best_count(
        counts,
        Some((best, counts[best as int])),
    ) && (any_good(counts) ==> good_order(counts, picks@)) && (!any_good(counts) ==> picks@
        == seq![best]))
}

/// What one touch contributes to an enrollment, given the minutiae counts
/// of its frames (see `touch_outcome`).
pub fn touch_of_counts(tallies: &[usize]) -> (r: Result<(usize, Vec<usize>), Error>)
    ensures
        touch_outcome(tallies@, r),
{
    let ghost counts = tallies@;
    let (best, _) = match pick_of_counts(tallies) {
        Ok(p) => p,
        Err(e) => {
            return Err(e);
        },
    };
    let good = good_of_counts(tallies);
    let mut picks: Vec<usize> = Vec::new();
    if good.len() == 0 {
        picks.push(best);
        proof {
            if any_good(counts) {
                let i = choose|i: int| 0 <= i < counts.len() && #[trigger] counts[i] >= MIN_MINUTIAE;
                assert(counts[i] >= MIN_MINUTIAE);
            }
        }
        assert(picks@ =~= seq![best]);
    } else {
        let mut k: usize = 0;
        while k < good.len()
            invariant
                good_counts(counts, good@),
                k <= good@.len(),
                picks@.len() == k,
                forall|j: int| 0 <= j < k ==> #[trigger] picks@[j] == good@[j].0,
            decreases good@.len() - k,
        {
            picks.push(good[k].0);
            k = k + 1;
        }
        proof {
            assert(good@.len() > 0);
            assert(counts[good@[0].0 as int] >= MIN_MINUTIAE);
            assert(any_good(counts));
            assert forall|i: int|
                0 <= i < counts.len() && #[trigger] counts[i] >= MIN_MINUTIAE implies exists|k: int|
                    0 <= k < picks@.len() && #[trigger] picks@[k] == i by {
                let k0 = choose|k: int| 0 <= k < good@.len() && (#[trigger] good@[k]).0 == i;
                assert(picks@[k0] == i);
            }
            assert forall|k: int, l: int| 0 <= k < l < picks@.len() implies counts[
                #[trigger] picks@[k] as int] > counts[#[trigger] picks@[l] as int] || (
            counts[picks@[k] as int] == counts[picks@[l] as int] && picks@[k] < picks@[l]) by {
                assert(good@[k].1 > good@[l].1 || (good@[k].1 == good@[l].1 && good@[k].0
                    < good@[l].0));
            }
        }
    }
    Ok((best, picks))
}

/// What one touch contributes to an enrollment, from its frames: the
/// frames' minutiae are counted once, then see `touch_outcome`.
pub fn select_touch(frames: &[Vec<u8>]) -> (r: Result<(usize, Vec<usize>), Error>)
    ensures
        exists|counts: Seq<usize>|
            #![trigger possible_counts(frames@, counts)]
            possible_counts(frames@, counts) && touch_outcome(counts, r),
{
    let counts = minutiae_counts(frames);
    let r = touch_of_counts(counts.as_slice());
    assert(possible_counts(frames@, counts@) && touch_outcome(counts@, r));
    r
}

/// The reader's model name.
pub open spec fn model_name() -> Seq<char> {
    "DigitalPersona U.are.U 4500"@
}

/// The status `check_device` reports, given the error opening the reader
/// gave, if any: the model, the USB ids in four hex digits, and the error's
/// text when the reader was not found.
pub fn device_status(open_error: Option<uru4500::Error>) -> (s: DeviceStatus)
    ensures
        s.detected == open_error is None,
        s.model@ == model_name(),
        s.vendor_id@ == hex_fixed(VID as nat, 4),
        s.product_id@ == hex_fixed(PID as nat, 4),
        open_error is None ==> s.message is None,
        open_error matches Some(e) ==> (s.message matches Some(m) && m@ == uru4500::error_text(e)),
{
    let mut vendor_id = String::new();
    push_hex_fixed(&mut vendor_id, VID as u64, 4);
    let mut product_id = String::new();
    push_hex_fixed(&mut product_id, PID as u64, 4);
    let (detected, message) = match open_error {
        None => (true, None),
        Some(e) => (false, Some(e.message())),
    };
    DeviceStatus {
        detected,
        model: string_of("DigitalPersona U.are.U 4500"),
        vendor_id,
        product_id,
        message,
    }
}

/// The information `get_device_info` reports, given the reader's
/// hardware/firmware version.
pub fn device_info(version: String) -> (i: DeviceInfo)
    ensures
        i.model@ == model_name(),
        i.hardware_firmware_version@ == version@,
        i.image_width == IMAGE_WIDTH,
        i.image_height == IMAGE_HEIGHT,
        i.image_ppi == IMAGE_PPI,
{
    DeviceInfo {
        model: string_of("DigitalPersona U.are.U 4500"),
        hardware_firmware_version: version,
        image_width: IMAGE_WIDTH,
        image_height: IMAGE_HEIGHT,
        image_ppi: IMAGE_PPI,
    }
}

/// The response of `capture`, given where the image was saved and the
/// minutiae of the frame kept.
pub fn capture_response(path: String, minutiae_count: usize) -> (c: CaptureResponse)
    ensures
        c.path@ == path@,
        c.minutiae_count == minutiae_count,
        c.image_width == IMAGE_WIDTH,
        c.image_height == IMAGE_HEIGHT,
{
    CaptureResponse { path, minutiae_count, image_width: IMAGE_WIDTH, image_height: IMAGE_HEIGHT }
}

/// One frame of a diagnostic capture: where it was saved and its minutiae,
/// counting 0 for a frame that yields no template.
pub fn captured_frame(path: String, image: &[u8]) -> (c: CapturedFrame)
    ensures
        c.path@ == path@,
        possible_count(image@, c.minutiae_count),
{
    CapturedFrame { path, minutiae_count: template::frame_minutiae(image) }
}

/// The threshold a match request uses: the requested one, or
/// `DEFAULT_THRESHOLD`.
pub fn match_threshold(threshold: Option<u32>) -> (t: u32)
    ensures
        t == requested(threshold, DEFAULT_THRESHOLD),
{
    match threshold {
        Some(t) => t,
        None => DEFAULT_THRESHOLD,
    }
}

/// Where a verification takes the enrolled template from.
pub enum EnrolledSource {
    /// The JSON template of the request.
    Json(Enrollment),
    /// The template stored for this (valid) user name.
    Stored(String),
}

/// Chooses the enrolled template of a verification: the request's JSON
/// template if it has one, else the one stored for its user name, which must
/// then be given and valid.
pub fn enrolled_source(template: &Option<FingerprintTemplate>, username: &Option<String>) -> (r: Result<EnrolledSource, Error>)
    ensures
        template matches Some(t) ==> (match enrollment_of_json(t@) {
            Ok(e) => r matches Ok(EnrolledSource::Json(x)) && x@ == e,
            Err(err) => r matches Err(Error::Fingerprint(m)) && m@ == template::error_text(err),
        }),
        template is None && username is None ==> (r matches Err(Error::InvalidInput(m)) && m@
            == "username atau template JSON harus diberikan"@),
        template is None && username is Some ==> (match username_rejection(username->0@) {
            None => r matches Ok(EnrolledSource::Stored(u)) && u@ == username->0@,
            Some(text) => r matches Err(Error::InvalidInput(m)) && m@ == text,
        }),
{
    match template {
        Some(t) => match template::from_json_template(t) {
            Ok(e) => Ok(EnrolledSource::Json(e)),
            Err(e) => Err(Error::from_template(e)),
        },
        None => match username {
            None => Err(
                Error::InvalidInput(string_of("username atau template JSON harus diberikan")),
            ),
            Some(u) => match validate_username(u.as_str()) {
                Ok(()) => Ok(EnrolledSource::Stored(u.clone())),
                Err(e) => Err(e),
            },
        },
    }
}

/// The response of a verification: whether the scan matches the enrolled
/// template at the threshold, and the raw score (0 when the templates cannot
/// be compared). The match and the score are BOZORTH3's, on the scan
/// against the enrolled template: a scored pair matches exactly when its
/// score is at least the threshold, and templates that are not both NBIS
/// never match and score 0.
pub fn verify_response(enrolled: Enrollment, scanned: &Template, threshold: u32) -> (v: VerifyResponse)
    ensures
        v.matched ==> comparable(enrolled@.template, scanned@),
        !comparable(enrolled@.template, scanned@) ==> v.score == 0,
        comparable(enrolled@.template, scanned@) ==> template::bozorth3_score(
            enrolled@.template,
            scanned@,
            v.score,
        ),
        template::bozorth3_verdict(enrolled@.template, scanned@, threshold, v.matched),
        comparable(enrolled@.template, scanned@) ==> exists|s: u32|
            #![trigger template::bozorth3_score(enrolled@.template, scanned@, s)]
            template::bozorth3_score(enrolled@.template, scanned@, s) && (v.matched <==> s
                >= threshold),
        v.username@ == enrolled@.username,
        v.finger@ == enrolled@.finger,
        v.threshold == threshold,
{
    let score = template::score(&enrolled.template, scanned);
    let matched = template::verify(&enrolled.template, scanned, threshold);
    verified_response(enrolled, matched, score, threshold)
}

/// The response of a verification, given whether it matched and the score,
/// if the templates could be compared (0 when not).
pub fn verified_response(enrolled: Enrollment, matched: bool, score: Option<u32>, threshold: u32) -> (v: VerifyResponse)
    ensures
        v.matched == matched,
        v.username@ == enrolled@.username,
        v.finger@ == enrolled@.finger,
        v.score == requested(score, 0),
        v.threshold == threshold,
{
    let score = match score {
        Some(s) => s,
        None => 0,
    };
    VerifyResponse { matched, username: enrolled.username, finger: enrolled.finger, score, threshold }
}

/// The response of an identification that found no match among
/// `gallery_count` enrolled templates.
pub fn unmatched_response(threshold: u32, gallery_count: usize) -> (r: IdentifyResponse)
    ensures
        !r.matched,
        r.username is None,
        r.finger is None,
        r.score is None,
        r.threshold == threshold,
        r.gallery_count == gallery_count,
{
    IdentifyResponse {
        matched: false,
        username: None,
        finger: None,
        score: None,
        threshold,
        gallery_count,
    }
}

/// The templates of the enrollments of a gallery, in order.
pub open spec fn gallery_templates(gallery: Seq<Enrollment>) -> Seq<template::TemplateModel> {
    Seq::new(gallery.len(), |i: int| gallery[i]@.template)
}

/// Whether `r` reports the gallery entry `pick` for `scanned`: its owner,
/// finger and a BOZORTH3 score of the scan against its template, or no
/// match when nothing was picked.
pub open spec fn picked_response(
    gallery: Seq<Enrollment>,
    scanned: TemplateModel,
    pick: Option<usize>,
    r: IdentifyResponse,
) -> bool {
    &&& pick is None ==> !r.matched && r.username is None && r.finger is None && r.score is None
    &&& pick matches Some(i) ==> {
        &&& i < gallery.len()
        &&& r.matched
        &&& r.username matches Some(u) && u@ == gallery[i as int]@.username
        &&& r.finger matches Some(f) && f@ == gallery[i as int]@.finger
        &&& r.score matches Some(s) && template::bozorth3_score(gallery[i as int]@.template, scanned, s)
    }
}

/// The response of an identification (1:N): the owner and finger of the
/// enrollment that best matches the scan at the threshold, with its score,
/// or no match. Which entry matches best is BOZORTH3's pick among the
/// gallery's templates; the pick is an entry comparable with the scan, and
/// an empty gallery or a scan without minutiae matches nothing.
pub fn identify_response(gallery: &[Enrollment], scanned: &Template, threshold: u32) -> (r: IdentifyResponse)
    ensures
        r.threshold == threshold,
        r.gallery_count == gallery@.len(),
        r.matched ==> exists|i: int|
            0 <= i < gallery@.len() && comparable(#[trigger] gallery@[i]@.template, scanned@) && (
            r.username matches Some(u) && u@ == gallery@[i]@.username) && (r.finger matches Some(f)
                && f@ == gallery@[i]@.finger),
        r.matched ==> r.score is Some,
        !r.matched ==> r.username is None && r.finger is None && r.score is None,
        gallery@.len() == 0 || !(scanned@ is Nbis) ==> !r.matched,
        exists|pick: Option<usize>|
            #![trigger template::bozorth3_pick(scanned@, gallery_templates(gallery@), threshold, pick)]
            template::bozorth3_pick(scanned@, gallery_templates(gallery@), threshold, pick)
                && picked_response(gallery@, scanned@, pick, r),
{
    let mut templates: Vec<Template> = Vec::new();
    let mut k: usize = 0;
    while k < gallery.len()
        invariant
            k <= gallery@.len(),
            templates@.len() == k,
            gallery_view(templates@) =~= gallery_templates(gallery@).take(k as int),
        decreases gallery@.len() - k,
    {
        let ghost prev = templates@;
        templates.push(copy_template(&gallery[k].template));
        assert forall|i: int| 0 <= i < k + 1 implies #[trigger] gallery_view(templates@)[i]
            == gallery_templates(gallery@)[i] by {
            if i < k {
                assert(templates@[i] == prev[i]);
                assert(gallery_view(prev)[i] == gallery_templates(gallery@).take(k as int)[i]);
            }
        }
        assert(gallery_view(templates@) =~= gallery_templates(gallery@).take(k + 1));
        k = k + 1;
    }
    assert(gallery_view(templates@) =~= gallery_templates(gallery@));
    let pick = template::identify(scanned, templates.as_slice(), threshold);
    let score = match pick {
        Some(i) => template::score(&templates[i], scanned),
        None => None,
    };
    let r = identified_response(gallery, pick, score, threshold);
    proof {
        if let Some(i) = pick {
            assert(gallery_view(templates@)[i as int] == templates@[i as int]@);
            assert(gallery_templates(gallery@)[i as int] == gallery@[i as int]@.template);
            assert(comparable(gallery@[i as int]@.template, scanned@));
        }
        assert(template::bozorth3_pick(scanned@, gallery_templates(gallery@), threshold, pick)
            && picked_response(gallery@, scanned@, pick, r));
    }
    r
}

/// The response of an identification, given the gallery entry it picked,
/// if any, and that entry's score.
pub fn identified_response(
    gallery: &[Enrollment],
    pick: Option<usize>,
    score: Option<u32>,
    threshold: u32,
) -> (r: IdentifyResponse)
    requires
        pick matches Some(i) ==> i < gallery@.len(),
    ensures
        r.threshold == threshold,
        r.gallery_count == gallery@.len(),
        pick is None ==> !r.matched && r.username is None && r.finger is None && r.score is None,
        pick matches Some(i) ==> r.matched && (r.username matches Some(u) && u@
            == gallery@[i as int]@.username) && (r.finger matches Some(f) && f@
            == gallery@[i as int]@.finger) && r.score == score,
{
    match pick {
        None => unmatched_response(threshold, gallery.len()),
        Some(i) => IdentifyResponse {
            matched: true,
            username: Some(gallery[i].username.clone()),
            finger: Some(gallery[i].finger.clone()),
            score,
            threshold,
            gallery_count: gallery.len(),
        },
    }
}

/// The outcome of an operation on the reader, which is powered off after
/// it: the operation's error if it failed, else that of powering off, else
/// the operation's value.
pub fn finish_operation<T>(operation: Result<T, Error>, power_off: Result<(), Error>) -> (r: Result<T, Error>)
    ensures
        operation is Err ==> r == operation,
        operation is Ok ==> (power_off matches Err(e) ==> r == Err::<T, Error>(e)),
        operation is Ok && power_off is Ok ==> r == operation,
{
    match (operation, power_off) {
        (Err(e), _) => Err(e),
        (Ok(_), Err(e)) => Err(e),
        (Ok(v), Ok(())) => Ok(v),
    }
}

/// The name of the file that stores a user's template: the (valid) user
/// name with the `.fpt` extension.
pub fn template_file_name(username: &str) -> (r: Result<String, Error>)
    ensures
        match username_rejection(username@) {
            None => r matches Ok(n) && n@ == username@ + ".fpt"@,
            Some(text) => r matches Err(Error::InvalidInput(m)) && m@ == text,
        },
{
    match validate_username(username) {
        Ok(()) => {
            let mut n = string_of(username);
            n.append(".fpt");
            Ok(n)
        },
        Err(e) => Err(e),
    }
}

/// What enrollment stores, identification finds: the file name of every
/// valid user name has the extension of a stored template.
pub proof fn stored_templates_are_found(username: Seq<char>)
    requires
        username_rejection(username) is None,
    ensures
        template_file(username + ".fpt"@),
{
    reveal_strlit(".fpt");
    let n = username + ".fpt"@;
    assert(n.subrange(n.len() - 4, n.len() as int) =~= ".fpt"@);
}

/// A valid user name can stand on a line of its own: it holds no line
/// break and no carriage return, so an FPT1 text keeps it unchanged.
pub proof fn valid_usernames_are_line_safe(username: Seq<char>)
    requires
        username_rejection(username) is None,
    ensures
        line_safe(username),
{
    assert forall|i: int| 0 <= i < username.len() implies #[trigger] username[i] != '\n' by {
        assert(username_char(username[i]));
    }
    if username.len() > 0 {
        assert(username_char(username[username.len() - 1]));
    }
}

/// What enrollment stores, verification reads back: the FPT1 text of an
/// enrollment under a valid user name, whose finger name holds no line
/// break and does not end with a carriage return, parses to the same
/// enrollment.
pub proof fn stored_enrollment_reads_back(e: EnrollmentView)
    requires
        e.template is Nbis,
        username_rejection(e.username) is None,
        line_safe(e.finger),
    ensures
        fpt1_parse(fpt1_text(e.username, e.finger, e.template->Nbis_0)) == Ok::<
            EnrollmentView,
            template::ErrorModel,
        >(e),
{
    valid_usernames_are_line_safe(e.username);
    fpt1_round_trip(e);
}

/// The PNG file `png::Encoder` writes for an 8-bit grayscale image of
/// `width` by `height` pixels.
pub uninterp spec fn png_gray8(image: Seq<u8>, width: u32, height: u32) -> Seq<u8>;

/// Encodes an 8-bit grayscale image as PNG with `png::Encoder` (header,
/// then `write_image_data`, then the end chunk when the writer is dropped).
/// The file is named by `png_gray8`, a function of the pixels and the size.
/// The source shows that, with both sides non-zero and the image written to
/// memory, the one failure is a buffer whose length is not the image's area,
/// with the text below. A `Vec` never holds more than `isize::MAX` bytes.
#[verifier::external_body]
fn encode_png_gray8(image: &[u8], width: u32, height: u32) -> (r: Result<Vec<u8>, String>)
    requires
        0 < width,
        0 < height,
        width * height <= u32::MAX,
    ensures
        image@.len() == width * height ==> r is Ok,
        r matches Ok(b) ==> b@ == png_gray8(image@, width, height) && b@.len() <= isize::MAX,
        image@.len() != width * height ==> r is Err,
        r matches Err(m) ==> m@ == "wrong data size, expected "@ + decimal_nat((width * height) as nat) + " got "@ + decimal_nat(image@.len()),
{
    let mut png_data = Vec::new();
    {
        let mut encoder = png::Encoder::new(&mut png_data, width, height);
        encoder.set_color(png::ColorType::Grayscale);
        encoder.set_depth(png::BitDepth::Eight);
        let mut writer = match encoder.write_header() {
            Ok(w) => w,
            Err(e) => return Err(e.to_string()),
        };
        if let Err(e) = writer.write_image_data(image) {
            return Err(e.to_string());
        }
    }
    Ok(png_data)
}

/// The character of a 6-bit value in the standard base64 alphabet.
pub open spec fn base64_char(v: int) -> char {
    if v < 26 {
        (65 + v) as char
    } else if v < 52 {
        (97 + v - 26) as char
    } else if v < 62 {
        (48 + v - 52) as char
    } else if v == 62 {
        '+'
    } else {
        '/'
    }
}

/// The standard base64 encoding (RFC 4648), with `=` padding, of `bytes`:
/// each group of three bytes becomes four characters of six bits each.
pub open spec fn base64_text(bytes: Seq<u8>) -> Seq<char>
    decreases bytes.len(),
{
    if bytes.len() == 0 {
        Seq::empty()
    } else if bytes.len() == 1 {
        seq![base64_char((bytes[0] as int) / 4), base64_char(((bytes[0] as int) % 4) * 16), '=', '=']
    } else if bytes.len() == 2 {
        seq![
            base64_char((bytes[0] as int) / 4),
            base64_char(((bytes[0] as int) % 4) * 16 + (bytes[1] as int) / 16),
            base64_char(((bytes[1] as int) % 16) * 4),
            '=',
        ]
    } else {
        seq![
            base64_char((bytes[0] as int) / 4),
            base64_char(((bytes[0] as int) % 4) * 16 + (bytes[1] as int) / 16),
            base64_char(((bytes[1] as int) % 16) * 4 + (bytes[2] as int) / 64),
            base64_char((bytes[2] as int) % 64),
        ] + base64_text(bytes.skip(3))
    }
}

/// `base64::engine::general_purpose::STANDARD.encode`: the standard
/// alphabet with padding, as `base64_text` states it. It panics only when
/// the encoded length overflows `usize`, which cannot happen for inputs of
/// at most `isize::MAX` bytes.
#[verifier::external_body]
fn encode_base64(bytes: &[u8]) -> (s: String)
    requires
        bytes@.len() <= isize::MAX,
    ensures
        s@ == base64_text(bytes@),
{
    base64::Engine::encode(&base64::engine::general_purpose::STANDARD, bytes)
}

/// The `data:` URL of a reader image as PNG, for showing it in a web view;
/// an error when the buffer is not exactly one image.
pub fn image_data_url(image: &[u8]) -> (r: Result<String, Error>)
    ensures
        image@.len() == IMAGE_WIDTH * IMAGE_HEIGHT ==> (r matches Ok(s) && s@
            == "data:image/png;base64,"@ + base64_text(
            png_gray8(image@, IMAGE_WIDTH as u32, IMAGE_HEIGHT as u32),
        )),
        image@.len() != IMAGE_WIDTH * IMAGE_HEIGHT ==> (r matches Err(Error::Fingerprint(m)) && m@
            == "gagal menulis PNG: wrong data size, expected 111360 got "@ + decimal_nat(
            image@.len(),
        )),
{
    match encode_png_gray8(image, IMAGE_WIDTH as u32, IMAGE_HEIGHT as u32) {
        Ok(png_data) => {
            let mut url = string_of("data:image/png;base64,");
            let encoded = encode_base64(png_data.as_slice());
            url.append(encoded.as_str());
            Ok(url)
        },
        Err(text) => {
            let mut m = string_of("gagal menulis PNG: ");
            m.append(text.as_str());
            proof {
                reveal_strlit("gagal menulis PNG: wrong data size, expected 111360 got ");
                reveal_strlit("gagal menulis PNG: ");
                reveal_strlit("wrong data size, expected ");
                reveal_strlit(" got ");
                assert(decimal_nat(111360) =~= seq!['1', '1', '1', '3', '6', '0']) by {
                    reveal_with_fuel(decimal_nat, 7);
                }
                assert(m@ =~= "gagal menulis PNG: wrong data size, expected 111360 got "@
                    + decimal_nat(image@.len()));
            }
            Err(Error::Fingerprint(m))
        },
    }
}

/// The checks of an enrollment request, in the order they are made: the
/// user name, the finger, the number of touches, the wait. Gives the number
/// of touches and the wait in seconds.
pub fn enroll_plan(request: &EnrollRequest) -> (r: Result<(usize, u64), Error>)
    ensures
        username_rejection(request.username@) matches Some(text) ==> (r matches Err(
            Error::InvalidInput(m),
        ) && m@ == text),
        username_rejection(request.username@) is None && !has_visible(request.finger@) ==> (
        r matches Err(Error::InvalidInput(m)) && m@ == "finger tidak boleh kosong"@),
        username_rejection(request.username@) is None && has_visible(request.finger@) && !(1
            <= requested(request.samples, DEFAULT_ENROLL_SAMPLES) <= MAX_ENROLL_SAMPLES) ==> (
        r matches Err(Error::InvalidInput(m)) && m@ == range_text(
            "samples"@,
            MAX_ENROLL_SAMPLES as nat,
        )),
        username_rejection(request.username@) is None && has_visible(request.finger@) && 1
            <= requested(request.samples, DEFAULT_ENROLL_SAMPLES) <= MAX_ENROLL_SAMPLES && !(1
            <= requested(request.timeout_secs, DEFAULT_WAIT_SECS) <= MAX_WAIT_SECS) ==> (
        r matches Err(Error::InvalidInput(m)) && m@ == range_text(
            "timeoutSecs"@,
            MAX_WAIT_SECS as nat,
        )),
        username_rejection(request.username@) is None && has_visible(request.finger@) && 1
            <= requested(request.samples, DEFAULT_ENROLL_SAMPLES) <= MAX_ENROLL_SAMPLES && 1
            <= requested(request.timeout_secs, DEFAULT_WAIT_SECS) <= MAX_WAIT_SECS ==> r == Ok::<
            (usize, u64),
            Error,
        >(
            (
                requested(request.samples, DEFAULT_ENROLL_SAMPLES),
                requested(request.timeout_secs, DEFAULT_WAIT_SECS),
            ),
        ),
{
    validate_username(request.username.as_str())?;
    validate_finger(request.finger.as_str())?;
    let scan_count = enroll_scan_count(request.samples)?;
    let wait = wait_duration(request.timeout_secs)?;
    Ok((scan_count, wait))
}

/// The checks of a diagnostic capture request, in order: the number of
/// frames, the wait. Gives both.
pub fn capture_frames_plan(request: &CaptureFramesRequest) -> (r: Result<(usize, u64), Error>)
    ensures
        !(1 <= requested(request.count, DEFAULT_DIAGNOSTIC_FRAMES) <= MAX_DIAGNOSTIC_FRAMES) ==> (
        r matches Err(Error::InvalidInput(m)) && m@ == range_text(
            "count"@,
            MAX_DIAGNOSTIC_FRAMES as nat,
        )),
        1 <= requested(request.count, DEFAULT_DIAGNOSTIC_FRAMES) <= MAX_DIAGNOSTIC_FRAMES && !(1
            <= requested(request.timeout_secs, DEFAULT_WAIT_SECS) <= MAX_WAIT_SECS) ==> (
        r matches Err(Error::InvalidInput(m)) && m@ == range_text(
            "timeoutSecs"@,
            MAX_WAIT_SECS as nat,
        )),
        1 <= requested(request.count, DEFAULT_DIAGNOSTIC_FRAMES) <= MAX_DIAGNOSTIC_FRAMES && 1
            <= requested(request.timeout_secs, DEFAULT_WAIT_SECS) <= MAX_WAIT_SECS ==> r == Ok::<
            (usize, u64),
            Error,
        >(
            (
                requested(request.count, DEFAULT_DIAGNOSTIC_FRAMES),
                requested(request.timeout_secs, DEFAULT_WAIT_SECS),
            ),
        ),
{
    let count = diagnostic_frame_count(request.count)?;
    let wait = wait_duration(request.timeout_secs)?;
    Ok((count, wait))
}

/// The frames at the given indices, in that order.
pub open spec fn picked_frames(frames: Seq<Seq<u8>>, picks: Seq<usize>) -> Seq<Seq<u8>> {
    Seq::new(picks.len(), |k: int| frames[picks[k] as int])
}

/// Adds what one touch contributes to an enrollment (see `select_touch`):
/// its best frame to the previews and its chosen frames to the images.
/// Gives the choice; on error nothing is added.
pub fn add_touch(
    frames: &[Vec<u8>],
    images: &mut Vec<Vec<u8>>,
    previews: &mut Vec<Vec<u8>>,
) -> (r: Result<(usize, Vec<usize>), Error>)
    ensures
        exists|counts: Seq<usize>|
            #![trigger possible_counts(frames@, counts)]
            possible_counts(frames@, counts) && touch_outcome(counts, r),
        r matches Ok((best, picks)) ==> frames_view(final(previews)@) == frames_view(old(previews)@).push(
            frames@[best as int]@,
        ) && frames_view(final(images)@) == frames_view(old(images)@) + picked_frames(
            frames_view(frames@),
            picks@,
        ),
        r is Err ==> final(previews)@ == old(previews)@ && final(images)@ == old(images)@,
{
    let counts = minutiae_counts(frames);
    let (best, picks) = touch_of_counts(counts.as_slice())?;
    proof {
        if any_good(counts@) {
            assert forall|k: int| 0 <= k < picks@.len() implies #[trigger] picks@[k] < frames@.len() by {
                assert(picks@[k] < counts@.len());
            }
        }
    }
    let ghost before = frames_view(previews@);
    previews.push(vstd::slice::slice_to_vec(frames[best].as_slice()));
    assert(frames_view(previews@) =~= before.push(frames@[best as int]@));
    let ghost start = frames_view(images@);
    let mut k: usize = 0;
    while k < picks.len()
        invariant
            k <= picks@.len(),
            forall|j: int| 0 <= j < picks@.len() ==> #[trigger] picks@[j] < frames@.len(),
            frames_view(images@) =~= start + picked_frames(frames_view(frames@), picks@.take(k as int)),
        decreases picks@.len() - k,
    {
        let ghost prev = frames_view(images@);
        images.push(vstd::slice::slice_to_vec(frames[picks[k]].as_slice()));
        assert(frames_view(images@) =~= prev.push(frames@[picks@[k as int] as int]@));
        k = k + 1;
    }
    assert(picks@.take(k as int) =~= picks@);
    let r = Ok((best, picks));
    assert(possible_counts(frames@, counts@) && touch_outcome(counts@, r));
    r
}

/// Whether `r` is what an enrollment with its JSON form becomes when the
/// detected template has `samples`: an error when they hold no minutia,
/// else the enrollment of that template and its JSON form.
pub open spec fn built_outcome(
    samples: Seq<Seq<TemplateMinutia>>,
    username: Seq<char>,
    finger: Seq<char>,
    r: Result<(Enrollment, FingerprintTemplate), Error>,
) -> bool {
    &&& total_minutiae(samples) == 0 ==> (r matches Err(Error::Fingerprint(m)) && m@
        == template::error_text(template::ErrorModel::NoMinutiae))
    &&& total_minutiae(samples) > 0 ==> (r matches Ok((e, j)) && e@ == (EnrollmentView {
        username,
        finger,
        template: TemplateModel::Nbis(samples),
    }) && json_of(e@) == Some(j@))
}

/// Builds the enrollment of a user's finger from the images of its touches
/// (one sample per whole image, detected by MINDTCT), with its JSON form;
/// an error when the images yield no minutiae.
pub fn build_enrollment(username: &str, finger: &str, images: &[Vec<u8>]) -> (r: Result<
    (Enrollment, FingerprintTemplate),
    Error,
>)
    ensures
        exists|samples: Seq<Seq<TemplateMinutia>>|
            #![trigger reader_detection(accepted_frames(frames_view(images@)), samples)]
            reader_detection(accepted_frames(frames_view(images@)), samples)
                && built_outcome(samples, username@, finger@, r),
{
    let ghost detected_from = accepted_frames(frames_view(images@));
    let built = Enrollment::from_images(username, finger, images);
    let ghost samples = choose|samples: Seq<Seq<TemplateMinutia>>|
        #![trigger reader_detection(detected_from, samples)]
        reader_detection(detected_from, samples) && template::enrolled_outcome(samples, username@, finger@, built);
    let r = match built {
        Ok(enrollment) => match template::to_json_template(&enrollment) {
            Ok(j) => Ok((enrollment, j)),
            Err(e) => Err(Error::from_template(e)),
        },
        Err(e) => Err(Error::from_template(e)),
    };
    assert(reader_detection(detected_from, samples) && built_outcome(samples, username@, finger@, r));
    r
}

/// Whether an enrollment is stored on this machine: unless the request
/// says otherwise.
pub fn saves_locally(save_locally: Option<bool>) -> (b: bool)
    ensures
        b == requested(save_locally, true),
{
    match save_locally {
        Some(b) => b,
        None => true,
    }
}

/// The `data:` URLs of the preview images, when the request asks for them
/// (it does not unless it says so); else none.
pub fn preview_urls(previews: &[Vec<u8>], include_images: Option<bool>) -> (r: Result<Vec<String>, Error>)
    ensures
        !requested(include_images, false) ==> (r matches Ok(v) && v@.len() == 0),
        requested(include_images, false) && (forall|i: int|
            0 <= i < previews@.len() ==> (#[trigger] previews@[i])@.len() == IMAGE_WIDTH
                * IMAGE_HEIGHT) ==> (r matches Ok(v) && v@.len() == previews@.len() && forall|i: int|
            0 <= i < previews@.len() ==> (#[trigger] v@[i])@ == "data:image/png;base64,"@
                + base64_text(png_gray8(previews@[i]@, IMAGE_WIDTH as u32, IMAGE_HEIGHT as u32))),
        requested(include_images, false) && (exists|i: int|
            0 <= i < previews@.len() && (#[trigger] previews@[i])@.len() != IMAGE_WIDTH
                * IMAGE_HEIGHT) ==> (r matches Err(Error::Fingerprint(m)) && exists|i: int|
            0 <= i < previews@.len() && (#[trigger] previews@[i])@.len() != IMAGE_WIDTH * IMAGE_HEIGHT
                && (forall|j: int| 0 <= j < i ==> (#[trigger] previews@[j])@.len() == IMAGE_WIDTH
                * IMAGE_HEIGHT) && m@ == "gagal menulis PNG: wrong data size, expected 111360 got "@
                + decimal_nat(previews@[i]@.len())),
{
    let mut urls: Vec<String> = Vec::new();
    let wanted = match include_images {
        Some(b) => b,
        None => false,
    };
    if !wanted {
        return Ok(urls);
    }
    let mut i: usize = 0;
    while i < previews.len()
        invariant
            requested(include_images, false),
            i <= previews@.len(),
            urls@.len() == i,
            forall|j: int| 0 <= j < i ==> (#[trigger] previews@[j])@.len() == IMAGE_WIDTH * IMAGE_HEIGHT,
            forall|j: int|
                0 <= j < i ==> (#[trigger] urls@[j])@ == "data:image/png;base64,"@ + base64_text(
                    png_gray8(previews@[j]@, IMAGE_WIDTH as u32, IMAGE_HEIGHT as u32),
                ),
        decreases previews@.len() - i,
    {
        match image_data_url(previews[i].as_slice()) {
            Ok(url) => urls.push(url),
            Err(e) => {
                return Err(e);
            },
        }
        i = i + 1;
    }
    Ok(urls)
}

/// The response of an enrollment.
pub fn enroll_response(
    enrollment: Enrollment,
    template: FingerprintTemplate,
    path: Option<String>,
    images: Vec<String>,
    scan_count: usize,
    template_sample_count: usize,
) -> (r: EnrollResponse)
    ensures
        r.username@ == enrollment@.username,
        r.finger@ == enrollment@.finger,
        r.path == path,
        r.template@ == template@,
        r.images@ == images@,
        r.scan_count == scan_count,
        r.template_sample_count == template_sample_count,
        r.minutiae_count == capped(template::template_minutiae_count(enrollment@.template)),
{
    let minutiae_count = enrollment.minutiae_count();
    EnrollResponse {
        username: enrollment.username,
        finger: enrollment.finger,
        path,
        template,
        images,
        scan_count,
        template_sample_count,
        minutiae_count,
    }
}

/// Whether a wait for interrupt `want` is over when `got` came (`None` for
/// a short timeout): only the awaited interrupt ends it; other interrupts
/// are ignored.
pub fn irq_awaited(want: u16, got: Option<u16>) -> (done: bool)
    ensures
        done == (got == Some(want)),
{
    match got {
        Some(irq) => irq == want,
        None => false,
    }
}

} // verus!
