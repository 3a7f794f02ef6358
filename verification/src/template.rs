//! Fingerprint templates: minutiae extraction (MINDTCT) and matching
//! (BOZORTH3) through `fprint_pipeline`, frame selection, the JSON form of a
//! template and the FPT1 text format.

use vstd::prelude::*;

use crate::models::{samples_view, FingerprintTemplate, TemplateMinutia, TemplateView};
use crate::text::{
    chars_of, decimal, decimal_nat, has_visible, has_visible_char, is_digit, is_white_space, joined,
    lemma_joined_append, lemma_joined_one, lemma_lines_of_joined, lemma_numbers_from_token,
    lemma_parse_decimal, line_numbers, lines_of, numbers_from, numbers_in, plain_line, plain_lines,
    push_char, push_decimal_i64, push_decimal_u64, split_lines, starts_with, string_from_chars,
    string_of,
};
use crate::uru4500::{self, IMAGE_HEIGHT, IMAGE_PPI, IMAGE_WIDTH};
use fprint_pipeline::fprint_core::{Minutia, Template as CoreTemplate};
use fprint_pipeline::GrayImage;

verus! {

/// The BOZORTH3 score at which a match is accepted: the usual NBIS balance
/// between false accepts and false rejects. Raise it for a stricter match.
pub const DEFAULT_THRESHOLD: u32 = 40;

/// The fewest minutiae a frame needs to be used for enrollment.
pub const MIN_MINUTIAE: usize = 20;

/// The smallest image side MINDTCT accepts.
pub const MIN_DETECTABLE_DIM: usize = 25;

/// A template's payload, as in `fprint_core::Template`.
#[derive(Debug, Clone)]
pub enum Template {
    Undefined,
    /// Host-side minutiae: one sample per capture.
    Nbis(Vec<Vec<TemplateMinutia>>),
    Raw(Vec<u8>),
}

/// A template's payload as plain values.
pub enum TemplateModel {
    Undefined,
    Nbis(Seq<Seq<TemplateMinutia>>),
    Raw(Seq<u8>),
}

impl View for Template {
    type V = TemplateModel;

    open spec fn view(&self) -> TemplateModel {
        match self {
            Template::Undefined => TemplateModel::Undefined,
            Template::Nbis(s) => TemplateModel::Nbis(samples_view(s@)),
            Template::Raw(b) => TemplateModel::Raw(b@),
        }
    }
}

/// The number of minutiae over all samples.
pub open spec fn total_minutiae(samples: Seq<Seq<TemplateMinutia>>) -> int
    decreases samples.len(),
{
    if samples.len() == 0 {
        0
    } else {
        total_minutiae(samples.drop_last()) + samples.last().len()
    }
}

/// The number of minutiae of a template: 0 unless it has host-side minutiae.
pub open spec fn template_minutiae_count(t: TemplateModel) -> int {
    match t {
        TemplateModel::Nbis(s) => total_minutiae(s),
        _ => 0,
    }
}

/// A template of one finger with its owner and the finger's name.
#[derive(Debug, Clone)]
pub struct Enrollment {
    pub username: String,
    pub finger: String,
    pub template: Template,
}

pub struct EnrollmentView {
    pub username: Seq<char>,
    pub finger: Seq<char>,
    pub template: TemplateModel,
}

impl View for Enrollment {
    type V = EnrollmentView;

    open spec fn view(&self) -> EnrollmentView {
        EnrollmentView { username: self.username@, finger: self.finger@, template: self.template@ }
    }
}

/// Failures of template handling. `Io` carries the text of the I/O error.
#[derive(Debug)]
pub enum Error {
    Io(String),
    /// The image gave no minutiae (finger not pressed fully, or too dry).
    NoMinutiae,
    /// A template is damaged or of the wrong kind.
    BadFormat(String),
}

pub enum ErrorModel {
    Io(Seq<char>),
    NoMinutiae,
    BadFormat(Seq<char>),
}

impl View for Error {
    type V = ErrorModel;

    open spec fn view(&self) -> ErrorModel {
        match self {
            Error::Io(m) => ErrorModel::Io(m@),
            Error::NoMinutiae => ErrorModel::NoMinutiae,
            Error::BadFormat(m) => ErrorModel::BadFormat(m@),
        }
    }
}

/// The text of an error, as the plugin's users see it.
pub open spec fn error_text(e: ErrorModel) -> Seq<char> {
    match e {
        ErrorModel::Io(m) => "io: "@ + m,
        ErrorModel::NoMinutiae => "tidak ada minutiae yang terdeteksi \u{2014} tempelkan jari lebih penuh"@,
        ErrorModel::BadFormat(m) => "format template: "@ + m,
    }
}

impl Error {
    /// The text of the error.
    pub fn message(&self) -> (m: String)
        ensures
            m@ == error_text(self@),
    {
        match self {
            Error::Io(e) => {
                let mut m = string_of("io: ");
                m.append(e.as_str());
                m
            },
            Error::NoMinutiae => string_of(
                "tidak ada minutiae yang terdeteksi \u{2014} tempelkan jari lebih penuh",
            ),
            Error::BadFormat(e) => {
                let mut m = string_of("format template: ");
                m.append(e.as_str());
                m
            },
        }
    }
}

/// Whether `fprint_pipeline::GrayImage::new` accepts a buffer of `len` bytes
/// for a `width` by `height` image: both sides at least
/// `MIN_DETECTABLE_DIM`, the area at most `i32::MAX`, and the buffer at least
/// as long as the area.
pub open spec fn gray_image_accepts(len: int, width: int, height: int) -> bool {
    &&& width <= i32::MAX
    &&& height <= i32::MAX
    &&& width * height <= i32::MAX
    &&& width >= MIN_DETECTABLE_DIM
    &&& height >= MIN_DETECTABLE_DIM
    &&& len >= width * height
}

/// The `Debug` text of `ImageError::BufferTooShort` (a derived `Debug`).
pub open spec fn short_buffer_text(width: usize, height: usize, got: nat) -> Seq<char> {
    "BufferTooShort { width: "@ + decimal_nat(width as nat) + ", height: "@ + decimal_nat(
        height as nat,
    ) + ", got: "@ + decimal_nat(got) + " }"@
}

/// Calls `fprint_pipeline::GrayImage::new` and tells whether it accepts the
/// buffer: `None` if so, else the `Debug` text of the `ImageError`. The
/// contract states when the buffer is accepted (the checks of the
/// constructor's source), and the text when the sides are acceptable and
/// only the buffer is too short; the text of the other errors is not stated.
#[verifier::external_body]
fn gray_image_rejection(data: &[u8], width: usize, height: usize, ppi: u16) -> (r: Option<String>)
    ensures
        r is None <==> gray_image_accepts(data@.len() as int, width as int, height as int),
        r matches Some(t) ==> (gray_image_accepts(width * height, width as int, height as int) ==> t@ == short_buffer_text(width, height, data@.len())),
{
    match GrayImage::new(data, width, height, ppi) {
        Ok(_) => None,
        Err(e) => Some(format!("{e:?}")),
    }
}

/// The frames' pixel buffers as plain sequences.
pub open spec fn frames_view(frames: Seq<Vec<u8>>) -> Seq<Seq<u8>> {
    frames.map_values(|f: Vec<u8>| f@)
}

/// Whether every frame is accepted as a `width` by `height` image.
pub open spec fn frames_accepted(frames: Seq<Seq<u8>>, width: int, height: int) -> bool {
    forall|i: int|
        0 <= i < frames.len() ==> gray_image_accepts(#[trigger] frames[i].len() as int, width, height)
}

/// Whether every minutia's angle is a whole degree in `0..=359`, as
/// MINDTCT reports it.
pub open spec fn angles_in_range(samples: Seq<Seq<TemplateMinutia>>) -> bool {
    forall|i: int, j: int|
        0 <= i < samples.len() && 0 <= j < samples[i].len() ==> 0 <= (#[trigger] samples[i][j]).theta
            <= 359
}

/// Whether `samples` can be what MINDTCT detects in `n` frames: one sample
/// per frame, every angle in `0..=359`.
pub open spec fn detection_outcome(samples: Seq<Seq<TemplateMinutia>>, n: int) -> bool {
    samples.len() == n && angles_in_range(samples)
}

/// Whether MINDTCT, run on `frames` as `width` by `height` images at `ppi`,
/// may detect `samples`, one minutiae set per frame.
pub uninterp spec fn mindtct_detects(
    frames: Seq<Seq<u8>>,
    width: usize,
    height: usize,
    ppi: u16,
    samples: Seq<Seq<TemplateMinutia>>,
) -> bool;

/// Calls `fprint_pipeline::template_from_images` on the frames (each wrapped
/// in a `GrayImage`, which the `requires` guarantees is accepted). Its source
/// shows the result is always an NBIS template with one sample per frame,
/// and MINDTCT documents the angles as whole degrees in `0..=359`. The
/// samples are tied by `mindtct_detects` to the pixels, sides and `ppi`
/// handed over; which minutiae are found is not stated, nor that two runs
/// agree: the detector computes with `f64` trigonometry whose precision std
/// does not fix, so the result may differ between machines.
#[verifier::external_body]
fn detect_template(frames: &Vec<Vec<u8>>, width: usize, height: usize, ppi: u16) -> (detected: Template)
    requires
        frames_accepted(frames_view(frames@), width as int, height as int),
    ensures
        detected@ is Nbis,
        detection_outcome(detected@->Nbis_0, frames@.len() as int),
        mindtct_detects(frames_view(frames@), width, height, ppi, detected@->Nbis_0),
{
    let grays: Vec<GrayImage<'_>> =
        frames.iter().map(|f| GrayImage::new(f, width, height, ppi).unwrap()).collect();
    match fprint_pipeline::template_from_images(&grays) {
        CoreTemplate::Nbis(s) => Template::Nbis(
            s.iter().map(|v| v.iter().map(|m| TemplateMinutia { x: m.x, y: m.y, theta: m.theta }).collect()).collect(),
        ),
        _ => Template::Undefined,
    }
}

/// Whether `samples` can be what MINDTCT detects in the reader images
/// `frames`: one sample per frame, angles in `0..=359`, found at the
/// reader's sides and resolution.
pub open spec fn reader_detection(frames: Seq<Seq<u8>>, samples: Seq<Seq<TemplateMinutia>>) -> bool {
    &&& detection_outcome(samples, frames.len() as int)
    &&& mindtct_detects(frames, IMAGE_WIDTH, IMAGE_HEIGHT, IMAGE_PPI, samples)
}

/// Whether both templates have host-side minutiae, so that BOZORTH3 can
/// compare them.
pub open spec fn comparable(enrolled: TemplateModel, scanned: TemplateModel) -> bool {
    enrolled is Nbis && scanned is Nbis
}

/// Whether BOZORTH3 may give `score` to `scanned` against `enrolled`.
pub uninterp spec fn bozorth3_score(enrolled: TemplateModel, scanned: TemplateModel, score: u32) -> bool;

/// Whether BOZORTH3's verdict on `scanned` against `enrolled` at
/// `threshold` may be `accepted`.
pub uninterp spec fn bozorth3_verdict(
    enrolled: TemplateModel,
    scanned: TemplateModel,
    threshold: u32,
    accepted: bool,
) -> bool;

/// Calls `fprint_pipeline::nbis_match_score`. Its source shows a score
/// exactly when both templates are NBIS; the score is tied by
/// `bozorth3_score` to the pair handed over, in that order. Its value is not
/// stated, nor that two runs agree: BOZORTH3 rounds `f32` trigonometry whose
/// precision std does not fix.
#[verifier::external_body]
fn nbis_match_score(enrolled: &Template, scanned: &Template) -> (r: Option<u32>)
    ensures
        r is Some <==> comparable(enrolled@, scanned@),
        r matches Some(s) ==> bozorth3_score(enrolled@, scanned@, s),
{
    let core = |t: &Template| match t {
        Template::Nbis(s) => CoreTemplate::Nbis(
            s.iter().map(|v| v.iter().map(|m| Minutia { x: m.x, y: m.y, theta: m.theta }).collect()).collect(),
        ),
        Template::Raw(b) => CoreTemplate::Raw(b.clone()),
        Template::Undefined => CoreTemplate::Undefined,
    };
    match fprint_pipeline::nbis_match_score(&core(enrolled), &core(scanned)) {
        fprint_pipeline::MatchScore::Scored(score) => Some(score),
        _ => None,
    }
}

/// Calls `fprint_pipeline::nbis_verify`, whose source is the score of
/// `nbis_match_score` compared with `threshold`: a scored pair is accepted
/// exactly when its score is at least `threshold`, and templates that are
/// not both NBIS never verify. The verdict is tied by `bozorth3_verdict` to
/// the pair and threshold handed over; the score it rests on is not stated
/// (see `nbis_match_score`).
#[verifier::external_body]
fn nbis_verify(enrolled: &Template, scanned: &Template, threshold: u32) -> (r: bool)
    ensures
        r ==> comparable(enrolled@, scanned@),
        bozorth3_verdict(enrolled@, scanned@, threshold, r),
        r ==> exists|s: u32|
            #![trigger bozorth3_score(enrolled@, scanned@, s)]
            bozorth3_score(enrolled@, scanned@, s) && s >= threshold,
        !r ==> (comparable(enrolled@, scanned@) ==> exists|s: u32|
            #![trigger bozorth3_score(enrolled@, scanned@, s)]
            bozorth3_score(enrolled@, scanned@, s) && s < threshold),
{
    let core = |t: &Template| match t {
        Template::Nbis(s) => CoreTemplate::Nbis(
            s.iter().map(|v| v.iter().map(|m| Minutia { x: m.x, y: m.y, theta: m.theta }).collect()).collect(),
        ),
        Template::Raw(b) => CoreTemplate::Raw(b.clone()),
        Template::Undefined => CoreTemplate::Undefined,
    };
    fprint_pipeline::nbis_verify(&core(enrolled), &core(scanned), threshold)
}

/// The templates of a gallery as plain values.
pub open spec fn gallery_view(gallery: Seq<Template>) -> Seq<TemplateModel> {
    gallery.map_values(|t: Template| t@)
}

/// Whether BOZORTH3's pick for `scanned` among `gallery` at `threshold`
/// may be `pick`.
pub uninterp spec fn bozorth3_pick(
    scanned: TemplateModel,
    gallery: Seq<TemplateModel>,
    threshold: u32,
    pick: Option<usize>,
) -> bool;

/// Calls `fprint_pipeline::nbis_identify`. Its source scores each entry
/// against the scan with `nbis_match_score` and picks only an entry that
/// scored at least `threshold`, so the pick is an NBIS entry of the gallery
/// and the scan is NBIS too; an empty gallery or a scan without minutiae
/// picks nothing. The pick is tied by `bozorth3_pick` to the scan, gallery
/// and threshold handed over; which entry wins is not stated (see
/// `nbis_match_score`).
#[verifier::external_body]
fn nbis_identify(scanned: &Template, gallery: &[Template], threshold: u32) -> (r: Option<usize>)
    ensures
        r matches Some(i) ==> i < gallery@.len() && comparable(gallery@[i as int]@, scanned@),
        gallery@.len() == 0 || !(scanned@ is Nbis) ==> r is None,
        bozorth3_pick(scanned@, gallery_view(gallery@), threshold, r),
        r matches Some(i) ==> exists|s: u32|
            #![trigger bozorth3_score(gallery@[i as int]@, scanned@, s)]
            bozorth3_score(gallery@[i as int]@, scanned@, s) && s >= threshold,
{
    let core = |t: &Template| match t {
        Template::Nbis(s) => CoreTemplate::Nbis(
            s.iter().map(|v| v.iter().map(|m| Minutia { x: m.x, y: m.y, theta: m.theta }).collect()).collect(),
        ),
        Template::Raw(b) => CoreTemplate::Raw(b.clone()),
        Template::Undefined => CoreTemplate::Undefined,
    };
    let g: Vec<CoreTemplate> = gallery.iter().map(core).collect();
    fprint_pipeline::nbis_identify(&core(scanned), &g, threshold)
}

proof fn lemma_total_minutiae_zero(samples: Seq<Seq<TemplateMinutia>>)
    ensures
        total_minutiae(samples) >= 0,
        total_minutiae(samples) == 0 <==> forall|j: int|
            0 <= j < samples.len() ==> #[trigger] samples[j].len() == 0,
    decreases samples.len(),
{
    if samples.len() > 0 {
        let init = samples.drop_last();
        lemma_total_minutiae_zero(init);
        assert forall|j: int| 0 <= j < init.len() implies #[trigger] init[j] == samples[j] by {}
        if total_minutiae(samples) == 0 {
            assert forall|j: int| 0 <= j < samples.len() implies #[trigger] samples[j].len() == 0 by {
                if j < init.len() {
                    assert(init[j].len() == 0);
                }
            }
        }
    }
}

proof fn lemma_total_minutiae_prefix(samples: Seq<Seq<TemplateMinutia>>, i: int)
    requires
        0 <= i <= samples.len(),
    ensures
        0 <= total_minutiae(samples.take(i)) <= total_minutiae(samples),
    decreases samples.len(),
{
    if samples.len() > 0 {
        let init = samples.drop_last();
        if i == samples.len() {
            assert(samples.take(i) =~= samples);
            lemma_total_minutiae_prefix(init, init.len() as int);
            assert(init.take(init.len() as int) =~= init);
        } else {
            assert(samples.take(i) =~= init.take(i));
            lemma_total_minutiae_prefix(init, i);
        }
    } else {
        assert(samples.take(i) =~= samples);
    }
}

/// `n` capped at `usize::MAX`.
pub open spec fn capped(n: int) -> int {
    if n <= usize::MAX {
        n
    } else {
        usize::MAX as int
    }
}

/// The number of minutiae in a template: the sum over its samples, or 0 for
/// a template without host-side minutiae. The sum saturates at `usize::MAX`,
/// which no template held in memory reaches.
pub fn minutiae_count(t: &Template) -> (n: usize)
    ensures
        n == capped(template_minutiae_count(t@)),
{
    match t {
        Template::Nbis(samples) => {
            let ghost sv = samples_view(samples@);
            let mut total: usize = 0;
            let mut i: usize = 0;
            assert(sv.take(0) =~= Seq::<Seq<TemplateMinutia>>::empty());
            while i < samples.len()
                invariant
                    sv == samples_view(samples@),
                    i <= samples@.len(),
                    total == capped(total_minutiae(sv.take(i as int))),
                decreases samples@.len() - i,
            {
                proof {
                    assert(sv.take(i + 1).drop_last() =~= sv.take(i as int));
                    lemma_total_minutiae_prefix(sv, i as int);
                }
                let len = samples[i].len();
                if total > usize::MAX - len {
                    total = usize::MAX;
                } else {
                    total = total + len;
                }
                i = i + 1;
            }
            assert(sv.take(i as int) =~= sv);
            total
        },
        _ => 0,
    }
}

/// Whether some sample of a template has a minutia.
pub fn has_minutiae(t: &Template) -> (b: bool)
    ensures
        b == (template_minutiae_count(t@) > 0),
{
    match t {
        Template::Nbis(samples) => {
            let ghost sv = samples_view(samples@);
            proof {
                lemma_total_minutiae_zero(sv);
            }
            let mut i: usize = 0;
            while i < samples.len()
                invariant
                    sv == samples_view(samples@),
                    t@ == TemplateModel::Nbis(sv),
                    i <= samples@.len(),
                    total_minutiae(sv) >= 0,
                    total_minutiae(sv) == 0 <==> forall|j: int|
                        0 <= j < sv.len() ==> #[trigger] sv[j].len() == 0,
                    forall|j: int| 0 <= j < i ==> #[trigger] sv[j].len() == 0,
                decreases samples@.len() - i,
            {
                if samples[i].len() > 0 {
                    assert(sv[i as int].len() > 0);
                    assert(total_minutiae(sv) != 0);
                    assert(t@ == TemplateModel::Nbis(sv));
                    return true;
                }
                i = i + 1;
            }
            false
        },
        _ => false,
    }
}

/// Whether `r` is the pick among frames with `counts` minutiae: the last
/// frame with the most minutiae, provided it has any.
pub open spec fn best_count(counts: Seq<usize>, r: Option<(usize, usize)>) -> bool {
    match r {
        None => forall|j: int| 0 <= j < counts.len() ==> #[trigger] counts[j] == 0,
        Some((i, n)) => {
            &&& i < counts.len()
            &&& n == counts[i as int]
            &&& n > 0
            &&& forall|j: int| 0 <= j < counts.len() ==> #[trigger] counts[j] <= n
            &&& forall|j: int| i < j < counts.len() ==> #[trigger] counts[j] < n
        },
    }
}

/// The frame to keep given the minutiae found in each: the last one with the
/// most minutiae, as `(index, minutiae)`, or `None` when no frame has any.
pub fn best_of_counts(counts: &[usize]) -> (r: Option<(usize, usize)>)
    ensures
        best_count(counts@, r),
{
    if counts.len() == 0 {
        return None;
    }
    let mut best: usize = 0;
    let mut i: usize = 1;
    while i < counts.len()
        invariant
            1 <= i <= counts@.len(),
            best < i,
            forall|j: int| 0 <= j < i ==> #[trigger] counts@[j] <= counts@[best as int],
            forall|j: int| best < j < i ==> #[trigger] counts@[j] < counts@[best as int],
        decreases counts@.len() - i,
    {
        if counts[i] >= counts[best] {
            best = i;
        }
        i = i + 1;
    }
    if counts[best] > 0 {
        Some((best, counts[best]))
    } else {
        None
    }
}

/// Whether `r` lists the frames with at least `MIN_MINUTIAE` minutiae as
/// `(index, minutiae)`, most minutiae first and in frame order among equals.
pub open spec fn good_counts(counts: Seq<usize>, r: Seq<(usize, usize)>) -> bool {
    &&& forall|k: int|
        0 <= k < r.len() ==> (#[trigger] r[k]).0 < counts.len() && r[k].1 == counts[r[k].0 as int]
            && r[k].1 >= MIN_MINUTIAE
    &&& forall|i: int|
        0 <= i < counts.len() && #[trigger] counts[i] >= MIN_MINUTIAE ==> exists|k: int|
            0 <= k < r.len() && (#[trigger] r[k]).0 == i
    &&& forall|k: int, l: int|
        0 <= k < l < r.len() ==> (#[trigger] r[k]).1 > (#[trigger] r[l]).1 || (r[k].1 == r[l].1
            && r[k].0 < r[l].0)
}

/// The frames good enough to enroll, given the minutiae found in each: those
/// with at least `MIN_MINUTIAE`, most minutiae first (a stable sort, so equal
/// counts keep frame order).
pub fn good_of_counts(counts: &[usize]) -> (r: Vec<(usize, usize)>)
    ensures
        good_counts(counts@, r@),
{
    let mut r: Vec<(usize, usize)> = Vec::new();
    let mut i: usize = 0;
    while i < counts.len()
        invariant
            i <= counts@.len(),
            forall|k: int|
                0 <= k < r@.len() ==> (#[trigger] r@[k]).0 < i && r@[k].1 == counts@[r@[k].0 as int]
                    && r@[k].1 >= MIN_MINUTIAE,
            forall|j: int|
                0 <= j < i && #[trigger] counts@[j] >= MIN_MINUTIAE ==> exists|k: int|
                    0 <= k < r@.len() && (#[trigger] r@[k]).0 == j,
            forall|k: int, l: int|
                0 <= k < l < r@.len() ==> (#[trigger] r@[k]).1 > (#[trigger] r@[l]).1 || (r@[k].1
                    == r@[l].1 && r@[k].0 < r@[l].0),
        decreases counts@.len() - i,
    {
        let n = counts[i];
        if n >= MIN_MINUTIAE {
            let mut p: usize = 0;
            while p < r.len() && r[p].1 >= n
                invariant
                    p <= r@.len(),
                    forall|k: int| 0 <= k < p ==> (#[trigger] r@[k]).1 >= n,
                decreases r@.len() - p,
            {
                p = p + 1;
            }
            proof {
                if p < r@.len() {
                    assert forall|k: int| p <= k < r@.len() implies (#[trigger] r@[k]).1 < n by {
                        if k > p {
                            assert(r@[p as int].1 > r@[k].1 || r@[p as int].1 == r@[k].1);
                        }
                    }
                }
            }
            let ghost old_r = r@;
            r.insert(p, (i, n));
            proof {
                assert forall|k: int|
                    0 <= k < r@.len() implies (#[trigger] r@[k]) == (if k < p {
                        old_r[k]
                    } else if k == p {
                        (i, n)
                    } else {
                        old_r[k - 1]
                    }) by {}
                assert forall|j: int|
                    0 <= j < i + 1 && #[trigger] counts@[j] >= MIN_MINUTIAE implies exists|k: int|
                        0 <= k < r@.len() && (#[trigger] r@[k]).0 == j by {
                    if j == i {
                        assert(r@[p as int].0 == j);
                    } else {
                        let k0 = choose|k: int| 0 <= k < old_r.len() && (#[trigger] old_r[k]).0 == j;
                        if k0 < p {
                            assert(r@[k0].0 == j);
                        } else {
                            assert(r@[k0 + 1].0 == j);
                        }
                    }
                }
            }
        }
        i = i + 1;
    }
    r
}

/// Whether a frame buffer holds a whole image from the reader.
pub open spec fn image_accepted(image: Seq<u8>) -> bool {
    image.len() >= IMAGE_WIDTH * IMAGE_HEIGHT
}

proof fn lemma_reader_image_accepts(len: int)
    ensures
        gray_image_accepts(len, IMAGE_WIDTH as int, IMAGE_HEIGHT as int) <==> len >= IMAGE_WIDTH
            * IMAGE_HEIGHT,
{
}

/// Every image a reader frame decodes to is accepted for minutiae
/// detection: a decoded frame is never refused as a short buffer.
pub proof fn decoded_frames_are_accepted(raw: Seq<u8>, blocks: Seq<(u8, usize)>, num_lines: int)
    ensures
        image_accepted(uru4500::normalized(uru4500::assembled(raw, blocks, num_lines))),
        gray_image_accepts(
            uru4500::normalized(uru4500::assembled(raw, blocks, num_lines)).len() as int,
            IMAGE_WIDTH as int,
            IMAGE_HEIGHT as int,
        ),
{
    uru4500::frame_images_are_whole(raw, blocks, num_lines);
    lemma_reader_image_accepts(
        uru4500::normalized(uru4500::assembled(raw, blocks, num_lines)).len() as int,
    );
}

/// Whether `r` is what becomes of a detected template with `samples`:
/// `NoMinutiae` when they hold no minutia, else that template.
pub open spec fn usable_outcome(samples: Seq<Seq<TemplateMinutia>>, r: Result<Template, Error>) -> bool {
    &&& total_minutiae(samples) == 0 ==> (r matches Err(Error::NoMinutiae))
    &&& total_minutiae(samples) > 0 ==> (r matches Ok(t) && t@ == TemplateModel::Nbis(samples))
}

/// Turns one reader image into a template to match against: an error when
/// the buffer is too short for an image, or when no minutiae are found.
/// Which minutiae are found is MINDTCT's, run on this image at the reader's
/// sides and resolution: the result is one sample, with angles in `0..=359`.
pub fn template_from_image(image: &[u8]) -> (r: Result<Template, Error>)
    ensures
        !image_accepted(image@) ==> (r matches Err(Error::BadFormat(m)) && m@ == short_buffer_text(
            IMAGE_WIDTH,
            IMAGE_HEIGHT,
            image@.len(),
        )),
        image_accepted(image@) ==> exists|samples: Seq<Seq<TemplateMinutia>>|
            #![trigger reader_detection(seq![image@], samples)]
            reader_detection(seq![image@], samples) && usable_outcome(samples, r),
{
    proof {
        lemma_reader_image_accepts(image@.len() as int);
    }
    if let Some(text) = gray_image_rejection(image, IMAGE_WIDTH, IMAGE_HEIGHT, IMAGE_PPI) {
        return Err(Error::BadFormat(text));
    }
    let mut frames: Vec<Vec<u8>> = Vec::new();
    frames.push(vstd::slice::slice_to_vec(image));
    assert(frames_view(frames@) =~= seq![image@]);
    let t = detect_template(&frames, IMAGE_WIDTH, IMAGE_HEIGHT, IMAGE_PPI);
    let ghost samples = t@->Nbis_0;
    proof {
        lemma_total_minutiae_zero(samples);
    }
    let r = usable_template(t);
    assert(reader_detection(seq![image@], samples) && usable_outcome(samples, r));
    r
}

/// A detected template, or `NoMinutiae` when it holds no minutia.
pub fn usable_template(t: Template) -> (r: Result<Template, Error>)
    ensures
        template_minutiae_count(t@) == 0 ==> (r matches Err(Error::NoMinutiae)),
        template_minutiae_count(t@) > 0 ==> r == Ok::<Template, Error>(t),
{
    if !has_minutiae(&t) {
        return Err(Error::NoMinutiae);
    }
    Ok(t)
}

/// Whether `n` can be the number of minutiae counted in one frame: 0 for a
/// frame that is not a whole image, else the number MINDTCT finds in it.
pub open spec fn possible_count(image: Seq<u8>, n: usize) -> bool {
    if image_accepted(image) {
        exists|samples: Seq<Seq<TemplateMinutia>>|
            #![trigger reader_detection(seq![image], samples)]
            reader_detection(seq![image], samples) && n == total_minutiae(samples)
    } else {
        n == 0
    }
}

/// Whether `counts` can be the minutiae counts of `frames`, one per frame.
pub open spec fn possible_counts(frames: Seq<Vec<u8>>, counts: Seq<usize>) -> bool {
    &&& counts.len() == frames.len()
    &&& forall|i: int| 0 <= i < frames.len() ==> possible_count(#[trigger] frames[i]@, counts[i])
}

/// The number of minutiae found in one frame, or 0 when it yields no template.
pub fn frame_minutiae(image: &[u8]) -> (n: usize)
    ensures
        possible_count(image@, n),
{
    let r = template_from_image(image);
    let ghost w = choose|w: Seq<Seq<TemplateMinutia>>|
        #![trigger reader_detection(seq![image@], w)]
        reader_detection(seq![image@], w) && usable_outcome(w, r);
    proof {
        lemma_total_minutiae_zero(w);
    }
    match r {
        Ok(t) => {
            match &t {
                Template::Nbis(samples) => {
                    let ghost sv = samples_view(samples@);
                    assert(image_accepted(image@));
                    assert(sv == w);
                    assert(sv.drop_last() =~= Seq::<Seq<TemplateMinutia>>::empty());
                    assert(total_minutiae(sv.drop_last()) == 0);
                    assert(sv.last() == sv[0]);
                    samples[0].len()
                },
                _ => 0,
            }
        },
        Err(_) => 0,
    }
}

/// The minutiae counts of frames, one per frame (0 for a frame that yields
/// no template).
pub fn minutiae_counts(frames: &[Vec<u8>]) -> (counts: Vec<usize>)
    ensures
        possible_counts(frames@, counts@),
{
    let mut counts: Vec<usize> = Vec::new();
    let mut i: usize = 0;
    while i < frames.len()
        invariant
            i <= frames@.len(),
            counts@.len() == i,
            forall|k: int| 0 <= k < i ==> possible_count(#[trigger] frames@[k]@, counts@[k]),
        decreases frames@.len() - i,
    {
        counts.push(frame_minutiae(frames[i].as_slice()));
        i = i + 1;
    }
    counts
}

/// Picks the best frame of one touch: the reader scans continuously while
/// the finger rests, and the last frames are often empty as the finger lifts,
/// so the frame with the most minutiae is kept (the last of equals), as
/// `(index, minutiae)`; `None` when no frame has any.
pub fn best_frame(frames: &[Vec<u8>]) -> (r: Option<(usize, usize)>)
    ensures
        exists|counts: Seq<usize>|
            #![trigger possible_counts(frames@, counts)]
            possible_counts(frames@, counts) && best_count(counts, r),
{
    let counts = minutiae_counts(frames);
    let r = best_of_counts(counts.as_slice());
    assert(possible_counts(frames@, counts@) && best_count(counts@, r));
    r
}

/// All frames of one touch good enough to enroll, most minutiae first: the
/// more samples a template keeps, the likelier a later scan finds a match
/// (the score is that of the best pair).
pub fn good_frames(frames: &[Vec<u8>]) -> (r: Vec<(usize, usize)>)
    ensures
        exists|counts: Seq<usize>|
            #![trigger possible_counts(frames@, counts)]
            possible_counts(frames@, counts) && good_counts(counts, r@),
{
    let counts = minutiae_counts(frames);
    let r = good_of_counts(counts.as_slice());
    assert(possible_counts(frames@, counts@) && good_counts(counts@, r@));
    r
}

/// The frames a template is built from: those holding a whole image, in order.
pub open spec fn accepted_frames(frames: Seq<Seq<u8>>) -> Seq<Seq<u8>>
    decreases frames.len(),
{
    if frames.len() == 0 {
        Seq::empty()
    } else if image_accepted(frames.last()) {
        accepted_frames(frames.drop_last()).push(frames.last())
    } else {
        accepted_frames(frames.drop_last())
    }
}

/// The frames a template is built from are kept frame by frame: those of
/// `a` followed by those of `b`, so no whole image after the first is lost.
pub proof fn accepted_frames_concat(a: Seq<Seq<u8>>, b: Seq<Seq<u8>>)
    ensures
        accepted_frames(a + b) == accepted_frames(a) + accepted_frames(b),
    decreases b.len(),
{
    if b.len() == 0 {
        assert(a + b =~= a);
        assert(accepted_frames(a) + accepted_frames(b) =~= accepted_frames(a));
    } else {
        let b0 = b.drop_last();
        accepted_frames_concat(a, b0);
        assert((a + b).drop_last() =~= a + b0);
        assert((a + b).last() == b.last());
        if image_accepted(b.last()) {
            assert(accepted_frames(a) + accepted_frames(b0).push(b.last()) =~= (accepted_frames(a)
                + accepted_frames(b0)).push(b.last()));
        }
    }
}

/// The frames a template is built from are exactly the whole images among
/// the frames, in order.
pub proof fn accepted_frames_are_the_whole_images(frames: Seq<Seq<u8>>)
    ensures
        accepted_frames(frames) == frames.filter(|f: Seq<u8>| image_accepted(f)),
    decreases frames.len(),
{
    reveal(Seq::filter);
    if frames.len() > 0 {
        accepted_frames_are_the_whole_images(frames.drop_last());
    }
}

/// When every frame is a whole image, the template is built from all of
/// them, one sample each, in order.
pub proof fn whole_images_are_all_used(frames: Seq<Seq<u8>>)
    requires
        forall|i: int| 0 <= i < frames.len() ==> image_accepted(#[trigger] frames[i]),
    ensures
        accepted_frames(frames) == frames,
        accepted_frames(frames).len() == frames.len(),
    decreases frames.len(),
{
    if frames.len() > 0 {
        let init = frames.drop_last();
        assert forall|i: int| 0 <= i < init.len() implies image_accepted(#[trigger] init[i]) by {
            assert(init[i] == frames[i]);
        }
        whole_images_are_all_used(init);
        assert(image_accepted(frames[frames.len() - 1]));
        assert(init.push(frames.last()) =~= frames);
    }
}

/// Whether `r` is what becomes of an enrollment whose detected template
/// has `samples`: `NoMinutiae` when they hold no minutia, else the
/// enrollment of that template.
pub open spec fn enrolled_outcome(
    samples: Seq<Seq<TemplateMinutia>>,
    username: Seq<char>,
    finger: Seq<char>,
    r: Result<Enrollment, Error>,
) -> bool {
    &&& total_minutiae(samples) == 0 ==> (r matches Err(Error::NoMinutiae))
    &&& total_minutiae(samples) > 0 ==> (r matches Ok(e) && e@ == (EnrollmentView {
        username,
        finger,
        template: TemplateModel::Nbis(samples),
    }))
}

impl Enrollment {
    /// Builds a template from several scans (the more, the more tolerant of
    /// a shifted finger); frames too short to be an image are skipped.
    pub fn from_images(username: &str, finger: &str, images: &[Vec<u8>]) -> (r: Result<Enrollment, Error>)
        ensures
            exists|samples: Seq<Seq<TemplateMinutia>>|
                #![trigger reader_detection(accepted_frames(frames_view(images@)), samples)]
                reader_detection(accepted_frames(frames_view(images@)), samples)
                    && enrolled_outcome(samples, username@, finger@, r),
    {
        let mut accepted: Vec<Vec<u8>> = Vec::new();
        let mut i: usize = 0;
        while i < images.len()
            invariant
                i <= images@.len(),
                frames_view(accepted@) == accepted_frames(frames_view(images@).take(i as int)),
                frames_accepted(frames_view(accepted@), IMAGE_WIDTH as int, IMAGE_HEIGHT as int),
            decreases images@.len() - i,
        {
            let ghost before = frames_view(accepted@);
            proof {
                lemma_reader_image_accepts(images@[i as int]@.len() as int);
                let fv = frames_view(images@);
                assert(fv.take(i + 1).drop_last() =~= fv.take(i as int));
                assert(fv.take(i + 1).last() == images@[i as int]@);
            }
            if gray_image_rejection(images[i].as_slice(), IMAGE_WIDTH, IMAGE_HEIGHT, IMAGE_PPI).is_none() {
                accepted.push(vstd::slice::slice_to_vec(images[i].as_slice()));
                assert(frames_view(accepted@) =~= before.push(images@[i as int]@));
            }
            i = i + 1;
        }
        assert(frames_view(images@).take(images@.len() as int) =~= frames_view(images@));
        let t = detect_template(&accepted, IMAGE_WIDTH, IMAGE_HEIGHT, IMAGE_PPI);
        let ghost samples = t@->Nbis_0;
        let ghost detected_from = accepted_frames(frames_view(images@));
        assert(frames_view(accepted@).len() == accepted@.len());
        let r = Self::from_template(username, finger, t);
        assert(reader_detection(detected_from, samples) && enrolled_outcome(samples, username@, finger@, r));
        r
    }

    /// The enrollment of a detected template, or `NoMinutiae` when it holds
    /// no minutia.
    pub fn from_template(username: &str, finger: &str, template: Template) -> (r: Result<Enrollment, Error>)
        ensures
            template_minutiae_count(template@) == 0 ==> (r matches Err(Error::NoMinutiae)),
            template_minutiae_count(template@) > 0 ==> (r matches Ok(e) && e@ == (EnrollmentView {
                username: username@,
                finger: finger@,
                template: template@,
            })),
    {
        if !has_minutiae(&template) {
            return Err(Error::NoMinutiae);
        }
        Ok(Enrollment { username: string_of(username), finger: string_of(finger), template })
    }

    /// The number of minutiae in the enrollment's template.
    pub fn minutiae_count(&self) -> (n: usize)
        ensures
            n == capped(template_minutiae_count(self.template@)),
    {
        minutiae_count(&self.template)
    }
}

/// Whether `scanned` matches `enrolled` at or above `threshold` (1:1): a
/// pair BOZORTH3 scores is accepted exactly when the score is at least
/// `threshold`; templates that are not both NBIS never match.
pub fn verify(enrolled: &Template, scanned: &Template, threshold: u32) -> (b: bool)
    ensures
        b ==> comparable(enrolled@, scanned@),
        bozorth3_verdict(enrolled@, scanned@, threshold, b),
        comparable(enrolled@, scanned@) ==> exists|s: u32|
            #![trigger bozorth3_score(enrolled@, scanned@, s)]
            bozorth3_score(enrolled@, scanned@, s) && (b <==> s >= threshold),
{
    nbis_verify(enrolled, scanned, threshold)
}

/// The raw BOZORTH3 score (useful to tune the threshold); `None` unless both
/// templates have host-side minutiae.
pub fn score(enrolled: &Template, scanned: &Template) -> (r: Option<u32>)
    ensures
        r is Some <==> comparable(enrolled@, scanned@),
        r matches Some(s) ==> bozorth3_score(enrolled@, scanned@, s),
{
    nbis_match_score(enrolled, scanned)
}

/// The index of the gallery template that best matches `scanned` (1:N):
/// an entry BOZORTH3 scores at least `threshold` against the scan.
pub fn identify(scanned: &Template, gallery: &[Template], threshold: u32) -> (r: Option<usize>)
    ensures
        r matches Some(i) ==> i < gallery@.len() && comparable(gallery@[i as int]@, scanned@),
        gallery@.len() == 0 || !(scanned@ is Nbis) ==> r is None,
        bozorth3_pick(scanned@, gallery_view(gallery@), threshold, r),
        r matches Some(i) ==> exists|s: u32|
            #![trigger bozorth3_score(gallery@[i as int]@, scanned@, s)]
            bozorth3_score(gallery@[i as int]@, scanned@, s) && s >= threshold,
{
    nbis_identify(scanned, gallery, threshold)
}

fn copy_samples(samples: &Vec<Vec<TemplateMinutia>>) -> (out: Vec<Vec<TemplateMinutia>>)
    ensures
        samples_view(out@) == samples_view(samples@),
{
    let mut out: Vec<Vec<TemplateMinutia>> = Vec::new();
    let mut i: usize = 0;
    while i < samples.len()
        invariant
            i <= samples@.len(),
            out@.len() == i,
            samples_view(out@) == samples_view(samples@).take(i as int),
        decreases samples@.len() - i,
    {
        let ghost prev = out@;
        out.push(vstd::slice::slice_to_vec(samples[i].as_slice()));
        assert forall|k: int| 0 <= k < i + 1 implies #[trigger] samples_view(out@)[k]
            == samples_view(samples@)[k] by {
            if k < i {
                assert(out@[k] == prev[k]);
                assert(samples_view(prev)[k] == samples_view(samples@).take(i as int)[k]);
            }
        }
        assert(samples_view(out@) =~= samples_view(samples@).take(i + 1));
        i = i + 1;
    }
    assert(samples_view(samples@).take(i as int) =~= samples_view(samples@));
    out
}

/// A copy of a template.
pub fn copy_template(t: &Template) -> (r: Template)
    ensures
        r@ == t@,
{
    match t {
        Template::Undefined => Template::Undefined,
        Template::Nbis(samples) => Template::Nbis(copy_samples(samples)),
        Template::Raw(bytes) => Template::Raw(vstd::slice::slice_to_vec(bytes.as_slice())),
    }
}

/// The JSON form of an enrollment, if its template has host-side minutiae.
pub open spec fn json_of(e: EnrollmentView) -> Option<TemplateView> {
    match e.template {
        TemplateModel::Nbis(s) => Some(TemplateView { version: 1, username: e.username, finger: e.finger, samples: s }),
        _ => None,
    }
}

/// Turns an enrollment into the object that is serialized as JSON.
pub fn to_json_template(enrollment: &Enrollment) -> (r: Result<FingerprintTemplate, Error>)
    ensures
        json_of(enrollment@) matches Some(t) ==> (r matches Ok(j) && j@ == t),
        json_of(enrollment@) is None ==> (r matches Err(Error::BadFormat(m)) && m@ == "template bukan NBIS"@),
{
    match &enrollment.template {
        Template::Nbis(samples) => Ok(FingerprintTemplate {
            version: 1,
            username: enrollment.username.clone(),
            finger: enrollment.finger.clone(),
            samples: copy_samples(samples),
        }),
        _ => Err(Error::BadFormat(string_of("template bukan NBIS"))),
    }
}

/// The enrollment a JSON template stands for, or the error it is rejected with.
pub open spec fn enrollment_of_json(t: TemplateView) -> Result<EnrollmentView, ErrorModel> {
    if t.version != 1 {
        Err(ErrorModel::BadFormat("versi template "@ + decimal_nat(t.version as nat) + " tidak didukung"@))
    } else if total_minutiae(t.samples) == 0 {
        Err(ErrorModel::BadFormat("template JSON tidak memiliki minutiae"@))
    } else {
        Ok(EnrollmentView { username: t.username, finger: t.finger, template: TemplateModel::Nbis(t.samples) })
    }
}

/// Builds an enrollment from the JSON object an earlier enrollment returned.
pub fn from_json_template(template: &FingerprintTemplate) -> (r: Result<Enrollment, Error>)
    ensures
        enrollment_of_json(template@) matches Ok(e) ==> (r matches Ok(x) && x@ == e),
        enrollment_of_json(template@) matches Err(err) ==> (r matches Err(x) && x@ == err),
{
    if template.version != 1 {
        let mut m = string_of("versi template ");
        push_decimal_u64(&mut m, template.version as u64);
        m.append(" tidak didukung");
        return Err(Error::BadFormat(m));
    }
    let enrollment = Enrollment {
        username: template.username.clone(),
        finger: template.finger.clone(),
        template: Template::Nbis(copy_samples(&template.samples)),
    };
    proof {
        lemma_total_minutiae_zero(template@.samples);
    }
    if !has_minutiae(&enrollment.template) {
        return Err(Error::BadFormat(string_of("template JSON tidak memiliki minutiae")));
    }
    Ok(enrollment)
}

/// An enrollment with minutiae comes back unchanged from its JSON form.
pub proof fn json_round_trip(e: EnrollmentView)
    requires
        e.template is Nbis,
        template_minutiae_count(e.template) > 0,
    ensures
        json_of(e) matches Some(t) && enrollment_of_json(t) == Ok::<EnrollmentView, ErrorModel>(e),
{
}

/// A version-1 JSON template with minutiae comes back unchanged from the
/// enrollment it stands for.
pub proof fn json_template_round_trip(t: TemplateView)
    requires
        t.version == 1,
        total_minutiae(t.samples) > 0,
    ensures
        enrollment_of_json(t) matches Ok(e) && json_of(e) == Some(t),
{
}

/// The first line of an FPT1 text.
pub open spec fn fpt1_header() -> Seq<char> {
    seq!['F', 'P', 'T', '1']
}

/// The key of the owner's line.
pub open spec fn user_key() -> Seq<char> {
    seq!['u', 's', 'e', 'r', '=']
}

/// The key of the finger's line.
pub open spec fn finger_key() -> Seq<char> {
    seq!['f', 'i', 'n', 'g', 'e', 'r', '=']
}

/// The line that opens a sample.
pub open spec fn sample_word() -> Seq<char> {
    seq!['s', 'a', 'm', 'p', 'l', 'e']
}

/// A minutia's line without its line end: `x y theta`.
pub open spec fn minutia_text(m: TemplateMinutia) -> Seq<char> {
    decimal(m.x as int) + seq![' '] + decimal(m.y as int) + seq![' '] + decimal(m.theta as int)
}

/// The lines of a sample's minutiae.
pub open spec fn minutiae_text(ms: Seq<TemplateMinutia>) -> Seq<char>
    decreases ms.len(),
{
    if ms.len() == 0 {
        Seq::empty()
    } else {
        minutiae_text(ms.drop_last()) + minutia_text(ms.last()) + seq!['\n']
    }
}

/// The lines of the samples: each a `sample` line and then its minutiae.
pub open spec fn samples_text(ss: Seq<Seq<TemplateMinutia>>) -> Seq<char>
    decreases ss.len(),
{
    if ss.len() == 0 {
        Seq::empty()
    } else {
        samples_text(ss.drop_last()) + sample_word() + seq!['\n'] + minutiae_text(ss.last())
    }
}

/// The FPT1 text of an enrollment: a header line, the owner's and the
/// finger's lines, then the samples, one minutia per line.
pub open spec fn fpt1_text(username: Seq<char>, finger: Seq<char>, ss: Seq<Seq<TemplateMinutia>>) -> Seq<char> {
    fpt1_header() + seq!['\n'] + user_key() + username + seq!['\n'] + finger_key() + finger + seq!['\n']
        + samples_text(ss)
}

/// Writes an enrollment in the FPT1 text format, to store it in a database
/// or on a server.
pub fn serialize(enrollment: &Enrollment) -> (r: Result<String, Error>)
    ensures
        enrollment@.template matches TemplateModel::Nbis(ss) ==> (r matches Ok(t) && t@ == fpt1_text(
            enrollment@.username,
            enrollment@.finger,
            ss,
        )),
        !(enrollment@.template is Nbis) ==> (r matches Err(Error::BadFormat(m)) && m@ == "template bukan NBIS"@),
{
    let samples = match &enrollment.template {
        Template::Nbis(samples) => samples,
        _ => {
            return Err(Error::BadFormat(string_of("template bukan NBIS")));
        },
    };
    let ghost ss = samples_view(samples@);
    let mut out = string_of("FPT1\n");
    out.append("user=");
    out.append(enrollment.username.as_str());
    push_char(&mut out, '\n');
    out.append("finger=");
    out.append(enrollment.finger.as_str());
    push_char(&mut out, '\n');
    proof {
        reveal_strlit("FPT1\n");
        reveal_strlit("user=");
        reveal_strlit("finger=");
        assert(out@ =~= fpt1_text(enrollment@.username, enrollment@.finger, ss.take(0)));
    }
    let mut i: usize = 0;
    while i < samples.len()
        invariant
            ss == samples_view(samples@),
            i <= samples@.len(),
            out@ == fpt1_text(enrollment@.username, enrollment@.finger, ss.take(i as int)),
        decreases samples@.len() - i,
    {
        let ghost before = out@;
        out.append("sample\n");
        proof {
            reveal_strlit("sample\n");
            assert(out@ =~= before + sample_word() + seq!['\n']);
        }
        let ghost mid = out@;
        let sample = &samples[i];
        let mut j: usize = 0;
        assert(ss[i as int].take(0) =~= Seq::<TemplateMinutia>::empty());
        while j < sample.len()
            invariant
                ss == samples_view(samples@),
                i < samples@.len(),
                sample@ == ss[i as int],
                j <= sample@.len(),
                out@ == mid + minutiae_text(ss[i as int].take(j as int)),
            decreases sample@.len() - j,
        {
            let m = sample[j];
            let ghost b2 = out@;
            push_decimal_i64(&mut out, m.x as i64);
            push_char(&mut out, ' ');
            push_decimal_i64(&mut out, m.y as i64);
            push_char(&mut out, ' ');
            push_decimal_i64(&mut out, m.theta as i64);
            push_char(&mut out, '\n');
            proof {
                let ms = ss[i as int].take(j + 1);
                assert(ms.drop_last() =~= ss[i as int].take(j as int));
                assert(ms.last() == m);
                assert(out@ =~= b2 + minutia_text(m) + seq!['\n']);
            }
            j = j + 1;
        }
        proof {
            let t = ss.take(i + 1);
            assert(t.drop_last() =~= ss.take(i as int));
            assert(ss[i as int].take(j as int) =~= ss[i as int]);
            assert(out@ =~= fpt1_text(enrollment@.username, enrollment@.finger, t));
        }
        i = i + 1;
    }
    assert(ss.take(i as int) =~= ss);
    Ok(out)
}

/// The text `format!("{:?}", s)` gives for a string: quoted, with special
/// characters escaped.
pub uninterp spec fn debug_text(s: Seq<char>) -> Seq<char>;

/// Renders a string with `Debug` formatting (`format!("{:?}", s)`), named by
/// `debug_text`: a function of the string alone.
#[verifier::external_body]
fn debug_quoted(s: &str) -> (r: String)
    ensures
        r@ == debug_text(s@),
{
    format!("{:?}", s)
}

/// What has been read of an FPT1 text so far.
pub struct ParseState {
    pub username: Seq<char>,
    pub finger: Seq<char>,
    pub samples: Seq<Seq<TemplateMinutia>>,
}

/// Whether `line` begins with `prefix`.
pub open spec fn begins_with(line: Seq<char>, prefix: Seq<char>) -> bool {
    prefix.len() <= line.len() && line.subrange(0, prefix.len() as int) == prefix
}

/// The effect of one line after the header: an owner or finger line sets
/// that field (the last one wins), a `sample` line opens a sample, a line
/// with three numbers adds a minutia to the open sample, blank lines are
/// skipped; anything else is an error with its message.
pub open spec fn apply_line(st: ParseState, line: Seq<char>) -> Result<ParseState, Seq<char>> {
    if begins_with(line, user_key()) {
        Ok(ParseState { username: line.skip(5), ..st })
    } else if begins_with(line, finger_key()) {
        Ok(ParseState { finger: line.skip(7), ..st })
    } else if line == sample_word() {
        Ok(ParseState { samples: st.samples.push(Seq::empty()), ..st })
    } else if has_visible(line) {
        let nums = line_numbers(line);
        if nums.len() != 3 {
            Err("baris minutia rusak: "@ + debug_text(line))
        } else if st.samples.len() == 0 {
            Err("minutia sebelum 'sample'"@)
        } else {
            let m = TemplateMinutia { x: nums[0], y: nums[1], theta: nums[2] };
            Ok(
                ParseState {
                    samples: st.samples.update(
                        st.samples.len() - 1,
                        st.samples.last().push(m),
                    ),
                    ..st
                },
            )
        }
    } else {
        Ok(st)
    }
}

/// The effect of the lines in order, stopping at the first error.
pub open spec fn apply_lines(st: ParseState, lines: Seq<Seq<char>>) -> Result<ParseState, Seq<char>>
    decreases lines.len(),
{
    if lines.len() == 0 {
        Ok(st)
    } else {
        match apply_line(st, lines[0]) {
            Ok(next) => apply_lines(next, lines.drop_first()),
            Err(m) => Err(m),
        }
    }
}

/// The state before any line after the header.
pub open spec fn empty_state() -> ParseState {
    ParseState { username: Seq::empty(), finger: Seq::empty(), samples: Seq::empty() }
}

/// The enrollment that the lines of an FPT1 text hold, or the error they
/// are rejected with: the first line must be the header.
pub open spec fn parse_lines(lines: Seq<Seq<char>>) -> Result<EnrollmentView, ErrorModel> {
    if lines.len() == 0 || lines[0] != fpt1_header() {
        Err(ErrorModel::BadFormat("header bukan FPT1"@))
    } else {
        match apply_lines(empty_state(), lines.drop_first()) {
            Ok(st) => Ok(
                EnrollmentView {
                    username: st.username,
                    finger: st.finger,
                    template: TemplateModel::Nbis(st.samples),
                },
            ),
            Err(m) => Err(ErrorModel::BadFormat(m)),
        }
    }
}

/// The enrollment an FPT1 text holds, or the error it is rejected with.
pub open spec fn fpt1_parse(text: Seq<char>) -> Result<EnrollmentView, ErrorModel> {
    parse_lines(lines_of(text))
}

fn chars_of_str(t: &str) -> (out: Vec<char>)
    ensures
        out@ == t@,
{
    chars_of(t)
}

/// Reads an enrollment from an FPT1 text, such as one received from a server.
pub fn deserialize(text: &str) -> (r: Result<Enrollment, Error>)
    ensures
        fpt1_parse(text@) matches Ok(e) ==> (r matches Ok(x) && x@ == e),
        fpt1_parse(text@) matches Err(err) ==> (r matches Err(x) && x@ == err),
{
    let chars = chars_of(text);
    let lines = split_lines(chars.as_slice());
    let ghost lv = lines@.map_values(|l: Vec<char>| l@);
    assert(lv == lines_of(text@));
    let header = chars_of_str("FPT1");
    proof {
        reveal_strlit("FPT1");
        assert(header@ =~= fpt1_header());
    }
    if lines.len() == 0 || !(lines[0].len() == 4 && starts_with(lines[0].as_slice(), header.as_slice())) {
        proof {
            if lv.len() > 0 {
                assert(lv[0] == lines@[0]@);
                if lv[0] == fpt1_header() {
                    assert(lines@[0]@.subrange(0, 4) =~= lines@[0]@);
                }
            }
            assert(parse_lines(lv) == Err::<EnrollmentView, ErrorModel>(
                ErrorModel::BadFormat("header bukan FPT1"@),
            ));
        }
        return Err(Error::BadFormat(string_of("header bukan FPT1")));
    }
    assert(lv[0] =~= fpt1_header()) by {
        assert(lv[0] == lines@[0]@);
        assert(lines@[0]@.subrange(0, 4) =~= lines@[0]@);
    }
    let user = chars_of_str("user=");
    let finger_k = chars_of_str("finger=");
    let sample_w = chars_of_str("sample");
    proof {
        reveal_strlit("user=");
        reveal_strlit("finger=");
        reveal_strlit("sample");
        assert(user@ =~= user_key());
        assert(finger_k@ =~= finger_key());
        assert(sample_w@ =~= sample_word());
    }
    let mut username: Vec<char> = Vec::new();
    let mut finger: Vec<char> = Vec::new();
    let mut samples: Vec<Vec<TemplateMinutia>> = Vec::new();
    let ghost init = empty_state();
    let ghost rest = lv.drop_first();
    let mut i: usize = 1;
    assert(rest.take(0) =~= Seq::<Seq<char>>::empty());
    assert(username@ =~= Seq::<char>::empty());
    assert(finger@ =~= Seq::<char>::empty());
    assert(samples_view(samples@) =~= Seq::<Seq<TemplateMinutia>>::empty());
    while i < lines.len()
        invariant
            lv == lines@.map_values(|l: Vec<char>| l@),
            lv == lines_of(text@),
            lv.len() > 0,
            lv[0] == fpt1_header(),
            rest == lv.drop_first(),
            lv.len() == lines@.len(),
            1 <= i <= lines@.len(),
            user@ == user_key(),
            finger_k@ == finger_key(),
            sample_w@ == sample_word(),
            init == empty_state(),
            apply_lines(init, rest.take(i - 1)) == Ok::<ParseState, Seq<char>>(
                ParseState { username: username@, finger: finger@, samples: samples_view(samples@) },
            ),
        decreases lines@.len() - i,
    {
        let ghost st = ParseState { username: username@, finger: finger@, samples: samples_view(samples@) };
        let line = &lines[i];
        assert(line@ == rest[i - 1]);
        proof {
            lemma_apply_lines_snoc(init, rest.take(i - 1), line@);
            assert(rest.take(i as int) =~= rest.take(i - 1).push(line@));
            assert(rest.take(i - 1).push(line@) + rest.skip(i as int) =~= rest);
        }
        if starts_with(line.as_slice(), user.as_slice()) {
            username = slice_skip_vec(line.as_slice(), 5);
        } else if starts_with(line.as_slice(), finger_k.as_slice()) {
            finger = slice_skip_vec(line.as_slice(), 7);
        } else if line.len() == 6 && starts_with(line.as_slice(), sample_w.as_slice()) {
            assert(line@.subrange(0, 6) =~= line@);
            samples.push(Vec::new());
            assert(samples_view(samples@) =~= st.samples.push(Seq::empty()));
        } else if has_visible_char(line.as_slice()) {
            proof {
                if line@ == sample_word() {
                    assert(line@.subrange(0, 6) =~= line@);
                }
            }
            let nums = numbers_in(line.as_slice());
            if nums.len() != 3 {
                let shown = string_from_chars(line.as_slice());
                let mut m = string_of("baris minutia rusak: ");
                let q = debug_quoted(shown.as_str());
                m.append(q.as_str());
                proof {
                    let msg = "baris minutia rusak: "@ + debug_text(line@);
                    assert(m@ == msg);
                    assert(apply_line(st, line@) == Err::<ParseState, Seq<char>>(msg));
                    lemma_apply_lines_error(init, rest.take(i - 1), line@, rest.skip(i as int));
                    assert(apply_lines(init, rest) == Err::<ParseState, Seq<char>>(msg));
                    assert(parse_lines(lv) == Err::<EnrollmentView, ErrorModel>(ErrorModel::BadFormat(msg)));
                }
                return Err(Error::BadFormat(m));
            }
            if samples.len() == 0 {
                proof {
                    let msg = "minutia sebelum 'sample'"@;
                    assert(apply_line(st, line@) == Err::<ParseState, Seq<char>>(msg));
                    lemma_apply_lines_error(init, rest.take(i - 1), line@, rest.skip(i as int));
                    assert(apply_lines(init, rest) == Err::<ParseState, Seq<char>>(msg));
                    assert(parse_lines(lv) == Err::<EnrollmentView, ErrorModel>(ErrorModel::BadFormat(msg)));
                }
                return Err(Error::BadFormat(string_of("minutia sebelum 'sample'")));
            }
            let m = TemplateMinutia { x: nums[0], y: nums[1], theta: nums[2] };
            let last = samples.len() - 1;
            let mut sample = samples.pop().unwrap();
            sample.push(m);
            samples.push(sample);
            assert(samples_view(samples@) =~= st.samples.update(last as int, st.samples.last().push(m)));
        } else {
            proof {
                if line@ == sample_word() {
                    assert(line@.subrange(0, 6) =~= line@);
                }
            }
        }
        i = i + 1;
    }
    assert(rest.take(i - 1) =~= rest);
    let out = Enrollment {
        username: string_from_chars(username.as_slice()),
        finger: string_from_chars(finger.as_slice()),
        template: Template::Nbis(samples),
    };
    assert(parse_lines(lv) == Ok::<EnrollmentView, ErrorModel>(out@));
    Ok(out)
}

fn slice_skip_vec(s: &[char], n: usize) -> (out: Vec<char>)
    requires
        n <= s@.len(),
    ensures
        out@ == s@.skip(n as int),
{
    let mut out: Vec<char> = Vec::new();
    let mut i = n;
    while i < s.len()
        invariant
            n <= i <= s@.len(),
            out@ =~= s@.subrange(n as int, i as int),
        decreases s@.len() - i,
    {
        out.push(s[i]);
        i = i + 1;
    }
    out
}

proof fn lemma_apply_lines_snoc(st: ParseState, lines: Seq<Seq<char>>, line: Seq<char>)
    ensures
        apply_lines(st, lines.push(line)) == match apply_lines(st, lines) {
            Ok(s2) => apply_line(s2, line),
            Err(m) => Err(m),
        },
    decreases lines.len(),
{
    if lines.len() == 0 {
        let one = lines.push(line);
        assert(one[0] == line);
        assert(one.drop_first() =~= Seq::<Seq<char>>::empty());
        assert(apply_lines(st, lines) == Ok::<ParseState, Seq<char>>(st));
        match apply_line(st, line) {
            Ok(s2) => {
                assert(apply_lines(s2, one.drop_first()) == Ok::<ParseState, Seq<char>>(s2));
            },
            Err(m) => {},
        }
    } else {
        assert(lines.push(line).drop_first() =~= lines.drop_first().push(line));
        assert(lines.push(line)[0] == lines[0]);
        match apply_line(st, lines[0]) {
            Ok(s2) => {
                lemma_apply_lines_snoc(s2, lines.drop_first(), line);
            },
            Err(m) => {},
        }
    }
}

proof fn lemma_apply_lines_error(st: ParseState, pre: Seq<Seq<char>>, line: Seq<char>, post: Seq<Seq<char>>)
    requires
        apply_lines(st, pre) is Ok,
        apply_line(apply_lines(st, pre)->Ok_0, line) is Err,
    ensures
        apply_lines(st, pre.push(line) + post) == apply_line(apply_lines(st, pre)->Ok_0, line),
    decreases pre.len(),
{
    if pre.len() == 0 {
        assert((pre.push(line) + post)[0] == line);
    } else {
        assert((pre.push(line) + post).drop_first() =~= pre.drop_first().push(line) + post);
        assert((pre.push(line) + post)[0] == pre[0]);
        lemma_apply_lines_error(apply_line(st, pre[0])->Ok_0, pre.drop_first(), line, post);
    }
}

/// The lines of a sample's minutiae, one `x y theta` line each.
pub open spec fn minutiae_lines(ms: Seq<TemplateMinutia>) -> Seq<Seq<char>>
    decreases ms.len(),
{
    if ms.len() == 0 {
        Seq::empty()
    } else {
        minutiae_lines(ms.drop_last()).push(minutia_text(ms.last()))
    }
}

/// The lines of the samples: for each, a `sample` line and its minutiae.
pub open spec fn sample_lines(ss: Seq<Seq<TemplateMinutia>>) -> Seq<Seq<char>>
    decreases ss.len(),
{
    if ss.len() == 0 {
        Seq::empty()
    } else {
        sample_lines(ss.drop_last()) + seq![sample_word()] + minutiae_lines(ss.last())
    }
}

/// The lines of an FPT1 text.
pub open spec fn fpt1_lines(username: Seq<char>, finger: Seq<char>, ss: Seq<Seq<TemplateMinutia>>) -> Seq<
    Seq<char>,
> {
    seq![fpt1_header(), user_key() + username, finger_key() + finger] + sample_lines(ss)
}

/// Whether a name can be written on a line of its own and read back
/// unchanged: it holds no line break and does not end with `\r`.
pub open spec fn line_safe(name: Seq<char>) -> bool {
    plain_line(name)
}

proof fn lemma_minutia_line(m: TemplateMinutia)
    ensures
        plain_line(minutia_text(m)),
        line_numbers(minutia_text(m)) == seq![m.x, m.y, m.theta],
        minutia_text(m)[0] == '-' || is_digit(minutia_text(m)[0]),
        !is_white_space(minutia_text(m)[0]),
{
    let dx = decimal(m.x as int);
    let dy = decimal(m.y as int);
    let dt = decimal(m.theta as int);
    lemma_parse_decimal(m.x);
    lemma_parse_decimal(m.y);
    lemma_parse_decimal(m.theta);
    let t = minutia_text(m);
    let sp = seq![' '];
    assert(is_white_space(' '));
    let r2 = dt;
    let r1 = dy + (sp + dt);
    assert(t =~= dx + (sp + r1));
    lemma_numbers_from_token(dx, sp + r1, Seq::empty());
    assert(Seq::<char>::empty() + dx =~= dx);
    assert((sp + r1)[0] == ' ');
    assert((sp + r1).drop_first() =~= r1);
    assert(line_numbers(t) == seq![m.x] + numbers_from(r1, Seq::empty()));
    lemma_numbers_from_token(dy, sp + r2, Seq::empty());
    assert(Seq::<char>::empty() + dy =~= dy);
    assert((sp + r2)[0] == ' ');
    assert((sp + r2).drop_first() =~= r2);
    assert(numbers_from(r1, Seq::empty()) == seq![m.y] + numbers_from(r2, Seq::empty()));
    lemma_numbers_from_token(dt, Seq::empty(), Seq::empty());
    assert(dt + Seq::<char>::empty() =~= dt);
    assert(Seq::<char>::empty() + dt =~= dt);
    assert(numbers_from(r2, Seq::empty()) == seq![m.theta]);
    assert(line_numbers(t) =~= seq![m.x, m.y, m.theta]);
    assert(t[0] == dx[0]);
    assert forall|i: int| 0 <= i < t.len() implies #[trigger] t[i] != '\n' by {
        if i < dx.len() {
            assert(t[i] == dx[i]);
            assert(!is_white_space(dx[i]));
        } else if i == dx.len() {
        } else if i < dx.len() + 1 + dy.len() {
            assert(t[i] == dy[i - dx.len() - 1]);
            assert(!is_white_space(dy[i - dx.len() - 1]));
        } else if i == dx.len() + 1 + dy.len() {
        } else {
            assert(t[i] == dt[i - dx.len() - 2 - dy.len()]);
            assert(!is_white_space(dt[i - dx.len() - 2 - dy.len()]));
        }
    }
    assert(t.last() == dt.last());
    assert(!is_white_space(dt[dt.len() - 1]));
}

proof fn lemma_minutiae_lines(ms: Seq<TemplateMinutia>)
    ensures
        joined(minutiae_lines(ms)) == minutiae_text(ms),
        plain_lines(minutiae_lines(ms)),
        minutiae_lines(ms).len() == ms.len(),
        forall|i: int| 0 <= i < ms.len() ==> #[trigger] minutiae_lines(ms)[i] == minutia_text(ms[i]),
    decreases ms.len(),
{
    if ms.len() > 0 {
        let pre = ms.drop_last();
        lemma_minutiae_lines(pre);
        lemma_minutia_line(ms.last());
        let l = minutia_text(ms.last());
        lemma_joined_append(minutiae_lines(pre), seq![l]);
        lemma_joined_one(l);
        assert(minutiae_lines(pre).push(l) =~= minutiae_lines(pre) + seq![l]);
        assert(minutiae_text(pre) + (l + seq!['\n']) =~= minutiae_text(pre) + l + seq!['\n']);
        assert forall|i: int| 0 <= i < ms.len() implies #[trigger] minutiae_lines(ms)[i]
            == minutia_text(ms[i]) by {
            if i < pre.len() {
                assert(minutiae_lines(ms)[i] == minutiae_lines(pre)[i]);
                assert(pre[i] == ms[i]);
            }
        }
        assert forall|i: int| 0 <= i < minutiae_lines(ms).len() implies plain_line(
            #[trigger] minutiae_lines(ms)[i],
        ) by {
            if i < pre.len() {
                assert(minutiae_lines(ms)[i] == minutiae_lines(pre)[i]);
            }
        }
    }
}

proof fn lemma_plain_append(a: Seq<Seq<char>>, b: Seq<Seq<char>>)
    requires
        plain_lines(a),
        plain_lines(b),
    ensures
        plain_lines(a + b),
{
    assert forall|i: int| 0 <= i < (a + b).len() implies plain_line(#[trigger] (a + b)[i]) by {
        if i < a.len() {
            assert((a + b)[i] == a[i]);
        } else {
            assert((a + b)[i] == b[i - a.len()]);
        }
    }
}

proof fn lemma_sample_word_line()
    ensures
        plain_lines(seq![sample_word()]),
        joined(seq![sample_word()]) == sample_word() + seq!['\n'],
{
    lemma_joined_one(sample_word());
    assert(plain_line(sample_word()));
    assert(seq![sample_word()][0] == sample_word());
}

proof fn lemma_sample_lines(ss: Seq<Seq<TemplateMinutia>>)
    ensures
        joined(sample_lines(ss)) == samples_text(ss),
        plain_lines(sample_lines(ss)),
    decreases ss.len(),
{
    if ss.len() > 0 {
        let pre = ss.drop_last();
        lemma_sample_lines(pre);
        lemma_minutiae_lines(ss.last());
        lemma_sample_word_line();
        let a = sample_lines(pre);
        let w = seq![sample_word()];
        let ml = minutiae_lines(ss.last());
        lemma_joined_append(a, w);
        lemma_joined_append(a + w, ml);
        lemma_plain_append(a, w);
        lemma_plain_append(a + w, ml);
        assert(samples_text(pre) + (sample_word() + seq!['\n']) + minutiae_text(ss.last())
            =~= samples_text(pre) + sample_word() + seq!['\n'] + minutiae_text(ss.last()));
    }
}

proof fn lemma_fpt1_lines(username: Seq<char>, finger: Seq<char>, ss: Seq<Seq<TemplateMinutia>>)
    requires
        line_safe(username),
        line_safe(finger),
    ensures
        lines_of(fpt1_text(username, finger, ss)) == fpt1_lines(username, finger, ss),
{
    let u = user_key() + username;
    let f = finger_key() + finger;
    let head = seq![fpt1_header(), u, f];
    lemma_sample_lines(ss);
    assert(plain_line(fpt1_header()));
    assert forall|i: int| 0 <= i < u.len() implies #[trigger] u[i] != '\n' by {
        if i >= 5 {
            assert(u[i] == username[i - 5]);
        }
    }
    assert(u.len() > 0 && u.last() == '\r' ==> username.len() > 0 && username.last() == '\r') by {
        if username.len() > 0 {
            assert(u.last() == username.last());
        }
    }
    assert forall|i: int| 0 <= i < f.len() implies #[trigger] f[i] != '\n' by {
        if i >= 7 {
            assert(f[i] == finger[i - 7]);
        }
    }
    assert(f.len() > 0 && f.last() == '\r' ==> finger.len() > 0 && finger.last() == '\r') by {
        if finger.len() > 0 {
            assert(f.last() == finger.last());
        }
    }
    assert(plain_lines(head)) by {
        assert forall|i: int| 0 <= i < head.len() implies plain_line(#[trigger] head[i]) by {
            if i == 0 {
                assert(head[i] == fpt1_header());
            } else if i == 1 {
                assert(head[i] == u);
            } else {
                assert(head[i] == f);
            }
        }
    }
    lemma_plain_append(head, sample_lines(ss));
    lemma_lines_of_joined(fpt1_lines(username, finger, ss));
    lemma_joined_append(head, sample_lines(ss));
    let h1 = seq![fpt1_header()];
    let h2 = seq![u];
    let h3 = seq![f];
    assert(head =~= h1 + h2 + h3);
    lemma_joined_append(h1 + h2, h3);
    lemma_joined_append(h1, h2);
    lemma_joined_one(fpt1_header());
    lemma_joined_one(u);
    lemma_joined_one(f);
    assert(joined(head) + samples_text(ss) =~= fpt1_text(username, finger, ss));
}

proof fn lemma_apply_lines_append(st: ParseState, a: Seq<Seq<char>>, b: Seq<Seq<char>>)
    ensures
        apply_lines(st, a + b) == match apply_lines(st, a) {
            Ok(s2) => apply_lines(s2, b),
            Err(m) => Err(m),
        },
    decreases a.len(),
{
    if a.len() == 0 {
        assert(a + b =~= b);
    } else {
        assert((a + b)[0] == a[0]);
        assert((a + b).drop_first() =~= a.drop_first() + b);
        match apply_line(st, a[0]) {
            Ok(s2) => {
                lemma_apply_lines_append(s2, a.drop_first(), b);
            },
            Err(m) => {},
        }
    }
}

proof fn lemma_apply_one(st: ParseState, line: Seq<char>)
    ensures
        apply_lines(st, seq![line]) == apply_line(st, line),
{
    lemma_apply_lines_snoc(st, Seq::empty(), line);
    assert(Seq::<Seq<char>>::empty().push(line) =~= seq![line]);
}

proof fn lemma_apply_minutiae_lines(st: ParseState, ms: Seq<TemplateMinutia>)
    requires
        st.samples.len() > 0,
    ensures
        apply_lines(st, minutiae_lines(ms)) == Ok::<ParseState, Seq<char>>(
            ParseState {
                samples: st.samples.update(st.samples.len() - 1, st.samples.last() + ms),
                ..st
            },
        ),
    decreases ms.len(),
{
    if ms.len() == 0 {
        assert(st.samples.last() + ms =~= st.samples.last());
        assert(st.samples.update(st.samples.len() - 1, st.samples.last()) =~= st.samples);
    } else {
        let pre = ms.drop_last();
        let m = ms.last();
        lemma_apply_minutiae_lines(st, pre);
        lemma_apply_lines_snoc(st, minutiae_lines(pre), minutia_text(m));
        lemma_minutia_line(m);
        let s2 = ParseState {
            samples: st.samples.update(st.samples.len() - 1, st.samples.last() + pre),
            ..st
        };
        let line = minutia_text(m);
        assert(!begins_with(line, user_key())) by {
            if begins_with(line, user_key()) {
                assert(line.subrange(0, 5)[0] == line[0]);
            }
        }
        assert(!begins_with(line, finger_key())) by {
            if begins_with(line, finger_key()) {
                assert(line.subrange(0, 7)[0] == line[0]);
            }
        }
        assert(line != sample_word()) by {
            if line == sample_word() {
                assert(line[0] == 's');
            }
        }
        assert(has_visible(line));
        assert(s2.samples.last() =~= st.samples.last() + pre);
        assert(s2.samples.last().push(m) =~= st.samples.last() + ms);
        assert(s2.samples.update(s2.samples.len() - 1, s2.samples.last().push(m)) =~= st.samples.update(
            st.samples.len() - 1,
            st.samples.last() + ms,
        ));
    }
}

proof fn lemma_apply_sample_lines(st: ParseState, ss: Seq<Seq<TemplateMinutia>>)
    ensures
        apply_lines(st, sample_lines(ss)) == Ok::<ParseState, Seq<char>>(
            ParseState { samples: st.samples + ss, ..st },
        ),
    decreases ss.len(),
{
    if ss.len() == 0 {
        assert(st.samples + ss =~= st.samples);
    } else {
        let pre = ss.drop_last();
        lemma_apply_sample_lines(st, pre);
        let s1 = ParseState { samples: st.samples + pre, ..st };
        let w = seq![sample_word()];
        let ml = minutiae_lines(ss.last());
        lemma_apply_lines_append(st, sample_lines(pre) + w, ml);
        lemma_apply_lines_append(st, sample_lines(pre), w);
        lemma_apply_one(s1, sample_word());
        assert(!begins_with(sample_word(), user_key())) by {
            assert(sample_word().subrange(0, 5)[0] == 's');
        }
        let s2 = ParseState { samples: s1.samples.push(Seq::empty()), ..st };
        assert(apply_line(s1, sample_word()) == Ok::<ParseState, Seq<char>>(s2));
        lemma_apply_minutiae_lines(s2, ss.last());
        assert(s2.samples.update(s2.samples.len() - 1, s2.samples.last() + ss.last()) =~= st.samples
            + ss);
    }
}

/// Reading back what was written: the FPT1 text of an enrollment with an
/// NBIS template, whose owner and finger names hold no line break and do not
/// end with a carriage return, parses to that same enrollment.
pub proof fn fpt1_round_trip(e: EnrollmentView)
    requires
        e.template is Nbis,
        line_safe(e.username),
        line_safe(e.finger),
    ensures
        fpt1_parse(fpt1_text(e.username, e.finger, e.template->Nbis_0)) == Ok::<
            EnrollmentView,
            ErrorModel,
        >(e),
{
    let ss = e.template->Nbis_0;
    let lines = fpt1_lines(e.username, e.finger, ss);
    lemma_fpt1_lines(e.username, e.finger, ss);
    let u = user_key() + e.username;
    let f = finger_key() + e.finger;
    assert(lines[0] == fpt1_header());
    assert(lines.drop_first() =~= seq![u, f] + sample_lines(ss));
    assert(seq![u, f] =~= seq![u] + seq![f]);
    lemma_apply_lines_append(empty_state(), seq![u, f], sample_lines(ss));
    lemma_apply_lines_append(empty_state(), seq![u], seq![f]);
    lemma_apply_one(empty_state(), u);
    assert(begins_with(u, user_key())) by {
        assert(u.subrange(0, 5) =~= user_key());
    }
    assert(u.skip(5) =~= e.username);
    let s1 = ParseState { username: e.username, ..empty_state() };
    lemma_apply_one(s1, f);
    assert(!begins_with(f, user_key())) by {
        assert(f.subrange(0, 5)[0] == 'f');
    }
    assert(begins_with(f, finger_key())) by {
        assert(f.subrange(0, 7) =~= finger_key());
    }
    assert(f.skip(7) =~= e.finger);
    let s2 = ParseState { finger: e.finger, ..s1 };
    lemma_apply_sample_lines(s2, ss);
    assert(s2.samples + ss =~= ss);
}

/// Whether a directory entry named `name` is a stored template: its
/// extension (what follows the last `.`, when that `.` does not begin the
/// name) is `fpt`.
pub open spec fn template_file(name: Seq<char>) -> bool {
    name.len() > 4 && name.subrange(name.len() - 4, name.len() as int) == ".fpt"@
}

/// Whether a directory entry named `name` is a stored template.
pub fn is_template_file(name: &str) -> (b: bool)
    ensures
        b == template_file(name@),
{
    let cs = chars_of(name);
    let n = cs.len();
    proof {
        reveal_strlit(".fpt");
    }
    if n <= 4 {
        return false;
    }
    let b = cs[n - 4] == '.' && cs[n - 3] == 'f' && cs[n - 2] == 'p' && cs[n - 1] == 't';
    proof {
        let tail = name@.subrange(n - 4, n as int);
        if b {
            assert(tail =~= ".fpt"@);
        } else {
            if tail == ".fpt"@ {
                assert(tail[0] == cs@[n - 4]);
                assert(tail[1] == cs@[n - 3]);
                assert(tail[2] == cs@[n - 2]);
                assert(tail[3] == cs@[n - 1]);
            }
        }
    }
    b
}

/// Whether name `a` comes before name `b` in the order of `String`'s `Ord`
/// (byte order of UTF-8, which is code point order): at the first
/// difference the smaller character, else the shorter name first.
pub open spec fn name_less(a: Seq<char>, b: Seq<char>) -> bool
    decreases a.len(),
{
    if b.len() == 0 {
        false
    } else if a.len() == 0 {
        true
    } else if a[0] != b[0] {
        (a[0] as u32) < (b[0] as u32)
    } else {
        name_less(a.drop_first(), b.drop_first())
    }
}

/// Names are ordered as `String`'s `Ord` orders them, whatever their
/// lengths: after a common prefix of `i` characters, the name with the
/// smaller character at `i` comes first; a name that is a proper prefix of
/// the other comes first; and a name never comes before one it extends or
/// equals.
pub proof fn name_order_is_lexicographic(a: Seq<char>, b: Seq<char>, i: int)
    requires
        0 <= i <= a.len(),
        i <= b.len(),
        a.take(i) == b.take(i),
    ensures
        i < a.len() && i < b.len() && a[i] != b[i] ==> (name_less(a, b) <==> (a[i] as u32) < (
        b[i] as u32)),
        i == a.len() && i < b.len() ==> name_less(a, b),
        i == b.len() ==> !name_less(a, b),
    decreases i,
{
    if i > 0 {
        assert(a[0] == a.take(i)[0]);
        assert(b[0] == b.take(i)[0]);
        assert(a.drop_first().take(i - 1) =~= b.drop_first().take(i - 1)) by {
            assert forall|k: int| 0 <= k < i - 1 implies #[trigger] a.drop_first().take(i - 1)[k]
                == b.drop_first().take(i - 1)[k] by {
                assert(a.drop_first().take(i - 1)[k] == a[k + 1]);
                assert(b.drop_first().take(i - 1)[k] == b[k + 1]);
                assert(a.take(i)[k + 1] == a[k + 1]);
                assert(b.take(i)[k + 1] == b[k + 1]);
                assert(a.take(i)[k + 1] == b.take(i)[k + 1]);
            }
        }
        name_order_is_lexicographic(a.drop_first(), b.drop_first(), i - 1);
        if i < a.len() {
            assert(a.drop_first()[i - 1] == a[i]);
        }
        if i < b.len() {
            assert(b.drop_first()[i - 1] == b[i]);
        }
    }
}

proof fn lemma_name_less_asymmetric(a: Seq<char>, b: Seq<char>)
    ensures
        name_less(a, b) ==> !name_less(b, a),
        !name_less(a, a),
    decreases a.len(),
{
    if a.len() > 0 && b.len() > 0 && a[0] == b[0] {
        lemma_name_less_asymmetric(a.drop_first(), b.drop_first());
    }
    if a.len() > 0 {
        lemma_name_less_asymmetric(a.drop_first(), a.drop_first());
    }
}

proof fn lemma_name_less_total(a: Seq<char>, b: Seq<char>)
    ensures
        !name_less(a, b) && !name_less(b, a) ==> a == b,
    decreases a.len(),
{
    if a.len() > 0 && b.len() > 0 {
        if a[0] == b[0] {
            lemma_name_less_total(a.drop_first(), b.drop_first());
            if a.drop_first() == b.drop_first() {
                assert(a =~= seq![a[0]] + a.drop_first());
                assert(b =~= seq![b[0]] + b.drop_first());
            }
        } else {
            vstd::utf8::char_u32_cast(a[0], a[0] as u32);
            vstd::utf8::char_u32_cast(b[0], b[0] as u32);
        }
    } else if a.len() == 0 && b.len() == 0 {
        assert(a =~= b);
    }
}

proof fn lemma_name_less_transitive(a: Seq<char>, b: Seq<char>, c: Seq<char>)
    ensures
        name_less(a, b) && name_less(b, c) ==> name_less(a, c),
    decreases a.len(),
{
    if a.len() > 0 && b.len() > 0 && c.len() > 0 && a[0] == b[0] && b[0] == c[0] {
        lemma_name_less_transitive(a.drop_first(), b.drop_first(), c.drop_first());
    }
}

/// Whether `name_less(a, b)`, computed on the characters.
fn chars_less(a: &[char], b: &[char]) -> (r: bool)
    ensures
        r == name_less(a@, b@),
{
    let mut i: usize = 0;
    assert(a@.skip(0) =~= a@);
    assert(b@.skip(0) =~= b@);
    while i < a.len() && i < b.len() && a[i] == b[i]
        invariant
            i <= a@.len(),
            i <= b@.len(),
            name_less(a@, b@) == name_less(a@.skip(i as int), b@.skip(i as int)),
        decreases a@.len() - i,
    {
        proof {
            assert(a@.skip(i as int).drop_first() =~= a@.skip(i + 1));
            assert(b@.skip(i as int).drop_first() =~= b@.skip(i + 1));
        }
        i = i + 1;
    }
    if i == b.len() {
        false
    } else if i == a.len() {
        true
    } else {
        assert(a@.skip(i as int)[0] == a@[i as int]);
        assert(b@.skip(i as int)[0] == b@[i as int]);
        (a[i] as u32) < (b[i] as u32)
    }
}

/// Whether names are in order: no later name comes before an earlier one.
pub open spec fn names_sorted(v: Seq<Enrollment>) -> bool {
    forall|i: int, j: int|
        0 <= i < j < v.len() ==> !name_less(#[trigger] v[j]@.username, #[trigger] v[i]@.username)
}

/// Whether `out` is `input` sorted by user name, stably: `out[k]` is
/// `input[p[k]]` for a permutation `p` of the indices, the names are in
/// order, and entries of equal name keep their order.
pub open spec fn stably_sorted_by_name(input: Seq<Enrollment>, out: Seq<Enrollment>) -> bool {
    &&& out.len() == input.len()
    &&& names_sorted(out)
    &&& exists|p: Seq<int>|
        #![trigger p.len()]
        p.len() == out.len() && (forall|k: int| 0 <= k < p.len() ==> 0 <= #[trigger] p[k] < input.len()
            && out[k] == input[p[k]]) && (forall|k: int, l: int|
            0 <= k < l < p.len() ==> #[trigger] p[k] != #[trigger] p[l]) && (forall|k: int, l: int|
            0 <= k < l < p.len() && out[k]@.username == out[l]@.username ==> #[trigger] p[k]
                < #[trigger] p[l])
}

/// The enrollments sorted by user name; entries of equal name keep their
/// order (a stable sort, as `sort_by` is).
pub fn sort_by_username(input: Vec<Enrollment>) -> (out: Vec<Enrollment>)
    ensures
        stably_sorted_by_name(input@, out@),
{
    let ghost orig = input@;
    let mut rest = input;
    let mut out: Vec<Enrollment> = Vec::new();
    let ghost mut p: Seq<int> = Seq::empty();
    let mut i: usize = 0;
    let n = rest.len();
    while i < n
        invariant
            n == orig.len(),
            i <= n,
            rest@ == orig.skip(i as int),
            out@.len() == i,
            names_sorted(out@),
            p.len() == i,
            forall|k: int| 0 <= k < p.len() ==> 0 <= #[trigger] p[k] < i && out@[k] == orig[p[k]],
            forall|k: int, l: int| 0 <= k < l < p.len() ==> #[trigger] p[k] != #[trigger] p[l],
            forall|k: int, l: int|
                0 <= k < l < p.len() && out@[k]@.username == out@[l]@.username ==> #[trigger] p[k]
                    < #[trigger] p[l],
        decreases n - i,
    {
        let e = rest.remove(0);
        assert(e == orig[i as int]);
        assert(rest@ =~= orig.skip(i + 1));
        let name = chars_of(e.username.as_str());
        let mut pos = out.len();
        while pos > 0 && chars_less(name.as_slice(), chars_of(out[pos - 1].username.as_str()).as_slice())
            invariant
                pos <= out@.len(),
                name@ == e@.username,
                forall|k: int| pos <= k < out@.len() ==> name_less(e@.username, #[trigger] out@[k]@.username),
            decreases pos,
        {
            pos = pos - 1;
        }
        proof {
            assert forall|k: int| 0 <= k < pos implies !name_less(e@.username, #[trigger] out@[k]@.username) by {
                if pos > 0 {
                    let b = out@[pos - 1]@.username;
                    let c = out@[k]@.username;
                    assert(!name_less(e@.username, b));
                    if k < pos - 1 {
                        assert(!name_less(b, c));
                        lemma_name_less_total(e@.username, b);
                        lemma_name_less_total(b, c);
                        lemma_name_less_transitive(c, b, e@.username);
                        lemma_name_less_asymmetric(e@.username, c);
                        if name_less(e@.username, c) {
                            if name_less(b, e@.username) {
                                lemma_name_less_transitive(b, e@.username, c);
                            }
                        }
                    }
                }
            }
            assert forall|k: int| pos <= k < out@.len() implies !name_less(#[trigger] out@[k]@.username, e@.username) by {
                lemma_name_less_asymmetric(e@.username, out@[k]@.username);
            }
        }
        let ghost old_out = out@;
        let ghost old_p = p;
        out.insert(pos, e);
        proof {
            p = old_p.insert(pos as int, i as int);
            assert forall|k: int| 0 <= k < out@.len() implies #[trigger] out@[k] == (if k < pos {
                old_out[k]
            } else if k == pos {
                e
            } else {
                old_out[k - 1]
            }) by {}
            assert forall|k: int| 0 <= k < p.len() implies #[trigger] p[k] == (if k < pos {
                old_p[k]
            } else if k == pos {
                i as int
            } else {
                old_p[k - 1]
            }) by {}
            assert forall|k: int, l: int| 0 <= k < l < out@.len() implies !name_less(
                #[trigger] out@[l]@.username,
                #[trigger] out@[k]@.username,
            ) by {
                if k < pos && l > pos {
                    let a = old_out[k]@.username;
                    let c = old_out[l - 1]@.username;
                    assert(!name_less(c, a));
                }
            }
            assert forall|k: int, l: int|
                0 <= k < l < p.len() && out@[k]@.username == out@[l]@.username implies #[trigger] p[k]
                    < #[trigger] p[l] by {
                if k == pos {
                    lemma_name_less_asymmetric(e@.username, e@.username);
                    assert(name_less(e@.username, old_out[l - 1]@.username));
                }
            }
        }
        i = i + 1;
    }
    assert(out@.len() == orig.len());
    assert(p.len() == out@.len());
    out
}

} // verus!
