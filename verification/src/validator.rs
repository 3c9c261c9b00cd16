//! The checks that metadata must pass before anything else relies on it.
use crate::binary64::{
    half_even, is_place, is_quotient, lemma_weight_increases, place, rounded, significand, weight,
    Binary64, INFINITY,
};
use crate::error::{Failure, ProbeError};
use crate::media_info::{lemma_fraction, Fraction, MediaInfo, Metadata};
use crate::text::{decimal, lower_case, same_text};
use vstd::arithmetic::div_mod::lemma_fundamental_div_mod;
use vstd::arithmetic::mul::{lemma_mul_inequality, lemma_mul_strict_inequality};
use vstd::arithmetic::power2::{
    lemma2_to64, lemma2_to64_rest, lemma_pow2_adds, lemma_pow2_pos, lemma_pow2_strictly_increases,
    pow2,
};
use vstd::prelude::*;

verus! {

/// Why the audio fields do not belong together.
pub const AUDIO_INCOMPLETE: &'static str =
    "audio fields incomplete: audio_sr, audio_ch, and audio_codec must all be present or all absent";

/// Why the audio sample rate is refused.
pub const AUDIO_RATE: &'static str = "audio sample rate out of valid range (8000–192000 Hz)";

/// A thousand, the greatest number of frames a second.
pub const RATE_LIMIT: u64 = 0x408F_4000_0000_0000;

/// The pixel formats that the filter graph can handle.
pub open spec fn pixel_formats() -> Seq<Seq<char>> {
    seq![
        "yuv420p"@,
        "yuv422p"@,
        "yuv444p"@,
        "yuv420p10le"@,
        "yuv422p10le"@,
        "yuv444p10le"@,
        "yuvj420p"@,
        "yuvj422p"@,
        "yuvj444p"@,
        "rgba"@,
        "rgb24"@,
        "bgra"@,
        "nv12"@,
        "nv21"@,
    ]
}

/// The video codecs that can be decoded.
pub open spec fn video_codecs() -> Seq<Seq<char>> {
    seq![
        "h264"@,
        "hevc"@,
        "h265"@,
        "vp8"@,
        "vp9"@,
        "av1"@,
        "mpeg4"@,
        "mpeg2video"@,
        "mjpeg"@,
        "prores"@,
        "dnxhd"@,
        "theora"@,
    ]
}

/// What is wrong with a duration: it must be positive and finite.
pub open spec fn duration_failure(info: Metadata) -> Option<Failure> {
    if info.duration.finite() && info.duration.value() > 0 {
        None
    } else {
        Some(Failure::InvalidDuration { path: info.path, duration: info.duration })
    }
}

/// What is wrong with a resolution: neither side may be zero.
pub open spec fn resolution_failure(info: Metadata) -> Option<Failure> {
    if info.resolution.0 != 0 && info.resolution.1 != 0 {
        None
    } else {
        Some(
            Failure::InvalidResolution {
                path: info.path,
                width: info.resolution.0,
                height: info.resolution.1,
            },
        )
    }
}

/// What is wrong with a frame rate: neither part may be zero, and it may not exceed a thousand
/// frames a second.
pub open spec fn fps_failure(info: Metadata) -> Option<Failure> {
    if !info.fps.valid() {
        Some(Failure::InvalidFrameRate { path: info.path, fps_str: info.fps.text() })
    } else if info.fps.num > 1000 * info.fps.den {
        Some(
            Failure::InvalidFrameRate {
                path: info.path,
                fps_str: info.fps.text() + " (exceeds 1000 fps limit)"@,
            },
        )
    } else {
        None
    }
}

/// What is wrong with a video codec: its name in lower case must be listed.
pub open spec fn video_codec_failure(info: Metadata) -> Option<Failure> {
    if video_codecs().contains(lower_case(info.video_codec)) {
        None
    } else {
        Some(
            Failure::UnsupportedFormat {
                path: info.path,
                value: "video codec '"@ + info.video_codec + "'"@,
            },
        )
    }
}

/// What is wrong with a pixel format: its name in lower case must be listed.
pub open spec fn pixel_fmt_failure(info: Metadata) -> Option<Failure> {
    if pixel_formats().contains(lower_case(info.pixel_fmt)) {
        None
    } else {
        Some(
            Failure::UnsupportedFormat {
                path: info.path,
                value: "pixel format '"@ + info.pixel_fmt + "'"@,
            },
        )
    }
}

/// What is wrong with the audio fields: all three or none must be there, and the sample rate must
/// lie from 8000 to 192000 hertz.
pub open spec fn audio_failure(info: Metadata) -> Option<Failure> {
    match (info.audio_sr, info.audio_ch, info.audio_codec) {
        (None, None, None) => None,
        (Some(sr), Some(_), Some(_)) => if 8000 <= sr <= 192000 {
            None
        } else {
            Some(Failure::MissingData(AUDIO_RATE@))
        },
        _ => Some(Failure::MissingData(AUDIO_INCOMPLETE@)),
    }
}

/// The first of two failures.
pub open spec fn first_failure(a: Option<Failure>, b: Option<Failure>) -> Option<Failure> {
    if a is Some {
        a
    } else {
        b
    }
}

/// The first thing that is wrong with metadata, if anything is. The file size is informational:
/// a size of zero is accepted.
pub open spec fn failure(info: Metadata) -> Option<Failure> {
    first_failure(
        duration_failure(info),
        first_failure(
            resolution_failure(info),
            first_failure(
                fps_failure(info),
                first_failure(
                    video_codec_failure(info),
                    first_failure(pixel_fmt_failure(info), audio_failure(info)),
                ),
            ),
        ),
    )
}

/// Whether a check came out with this failure, or passed.
pub open spec fn checked(r: Result<(), ProbeError>, expected: Option<Failure>) -> bool {
    match r {
        Ok(()) => expected is None,
        Err(e) => expected == Some(e@),
    }
}

/// Checks metadata, and gives the first thing that is wrong with it.
pub fn validate(info: &MediaInfo) -> (r: Result<(), ProbeError>)
    ensures
        checked(r, failure(info@)),
{
    check_duration(info)?;
    check_resolution(info)?;
    check_fps(info)?;
    check_video_codec(info)?;
    check_pixel_fmt(info)?;
    check_audio_consistency(info)?;
    check_file_size(info)?;
    Ok(())
}

/// Checks that the duration is positive and finite.
pub fn check_duration(info: &MediaInfo) -> (r: Result<(), ProbeError>)
    ensures
        checked(r, duration_failure(info@)),
{
    if !info.duration.is_positive() || !info.duration.is_finite() {
        return Err(
            ProbeError::InvalidDuration { path: info.path.clone(), duration: info.duration },
        );
    }
    Ok(())
}

/// Checks that the picture has a width and a height.
pub fn check_resolution(info: &MediaInfo) -> (r: Result<(), ProbeError>)
    ensures
        checked(r, resolution_failure(info@)),
{
    if info.resolution.0 == 0 || info.resolution.1 == 0 {
        return Err(
            ProbeError::InvalidResolution {
                path: info.path.clone(),
                width: info.resolution.0,
                height: info.resolution.1,
            },
        );
    }
    Ok(())
}

/// Checks that the frame rate is one that a file can have.
pub fn check_fps(info: &MediaInfo) -> (r: Result<(), ProbeError>)
    ensures
        checked(r, fps_failure(info@)),
{
    if !info.fps.is_valid() {
        return Err(
            ProbeError::InvalidFrameRate { path: info.path.clone(), fps_str: info.fps.to_text() },
        );
    }
    let rate: Binary64 = info.fps.as_f64();
    proof {
        lemma_rate_limit(info.fps, rate);
    }
    if Binary64::from_bits(RATE_LIMIT).is_less(rate) {
        let mut fps_str: String = info.fps.to_text();
        fps_str.append(" (exceeds 1000 fps limit)");
        return Err(ProbeError::InvalidFrameRate { path: info.path.clone(), fps_str });
    }
    Ok(())
}

/// Whether `name` is among `list`.
fn listed(list: &[&'static str], name: &str) -> (r: bool)
    ensures
        r == list@.map_values(|s: &'static str| s@).contains(name@),
{
    let ghost names = list@.map_values(|s: &'static str| s@);
    let mut i: usize = 0;
    while i < list.len()
        invariant
            i <= list.len(),
            names == list@.map_values(|s: &'static str| s@),
            forall|j: int| 0 <= j < i ==> names[j] != name@,
        decreases list.len() - i,
    {
        if same_text(list[i], name) {
            assert(names[i as int] == name@);
            return true;
        }
        i = i + 1;
    }
    false
}

/// Whether `name` is a video codec that can be decoded.
pub fn is_supported_codec(name: &str) -> (r: bool)
    ensures
        r == video_codecs().contains(name@),
{
    let list: [&'static str; 12] = [
        "h264",
        "hevc",
        "h265",
        "vp8",
        "vp9",
        "av1",
        "mpeg4",
        "mpeg2video",
        "mjpeg",
        "prores",
        "dnxhd",
        "theora",
    ];
    assert(list@.map_values(|s: &'static str| s@) =~= video_codecs());
    listed(list.as_slice(), name)
}

/// Whether `name` is a pixel format that the filter graph can handle.
pub fn is_supported_pixel_fmt(name: &str) -> (r: bool)
    ensures
        r == pixel_formats().contains(name@),
{
    let list: [&'static str; 14] = [
        "yuv420p",
        "yuv422p",
        "yuv444p",
        "yuv420p10le",
        "yuv422p10le",
        "yuv444p10le",
        "yuvj420p",
        "yuvj422p",
        "yuvj444p",
        "rgba",
        "rgb24",
        "bgra",
        "nv12",
        "nv21",
    ];
    assert(list@.map_values(|s: &'static str| s@) =~= pixel_formats());
    listed(list.as_slice(), name)
}

/// `name` between quotes, after `kind`.
fn quoted(kind: &str, name: &str) -> (r: String)
    ensures
        r@ == kind@ + name@ + "'"@,
{
    let mut r: String = kind.to_string();
    r.append(name);
    r.append("'");
    r
}

/// Checks that the video codec can be decoded.
pub fn check_video_codec(info: &MediaInfo) -> (r: Result<(), ProbeError>)
    ensures
        checked(r, video_codec_failure(info@)),
{
    let codec: String = info.video_codec.to_lowercase();
    if !is_supported_codec(codec.as_str()) {
        return Err(
            ProbeError::UnsupportedFormat {
                path: info.path.clone(),
                value: quoted("video codec '", info.video_codec.as_str()),
            },
        );
    }
    Ok(())
}

/// Checks that the filter graph can handle the pixel format.
pub fn check_pixel_fmt(info: &MediaInfo) -> (r: Result<(), ProbeError>)
    ensures
        checked(r, pixel_fmt_failure(info@)),
{
    let fmt: String = info.pixel_fmt.to_lowercase();
    if !is_supported_pixel_fmt(fmt.as_str()) {
        return Err(
            ProbeError::UnsupportedFormat {
                path: info.path.clone(),
                value: quoted("pixel format '", info.pixel_fmt.as_str()),
            },
        );
    }
    Ok(())
}

/// Checks that the audio fields belong together.
pub fn check_audio_consistency(info: &MediaInfo) -> (r: Result<(), ProbeError>)
    ensures
        checked(r, audio_failure(info@)),
{
    let has_sr: bool = info.audio_sr.is_some();
    let has_ch: bool = info.audio_ch.is_some();
    let has_codec: bool = info.audio_codec.is_some();
    if has_sr || has_ch || has_codec {
        if !has_sr || !has_ch || !has_codec {
            return Err(ProbeError::MissingData(AUDIO_INCOMPLETE));
        }
        if let Some(sr) = info.audio_sr {
            if sr < 8000 || sr > 192000 {
                return Err(ProbeError::MissingData(AUDIO_RATE));
            }
        }
    }
    Ok(())
}

/// Accepts every file size: containers do not always tell it, and the video is none the worse.
pub fn check_file_size(_info: &MediaInfo) -> (r: Result<(), ProbeError>)
    ensures
        r is Ok,
{
    Ok(())
}

// ─── Laws ───

/// A frame rate exceeds the limit as a binary64 number exactly where the fraction exceeds it.
pub proof fn lemma_rate_limit(fps: Fraction, rate: Binary64)
    requires
        fps.valid(),
        is_quotient(fps.num as nat, fps.den as nat, rate),
    ensures
        (Binary64 { bits: RATE_LIMIT }).less(rate) <==> fps.num > 1000 * fps.den,
{
    let limit = Binary64 { bits: RATE_LIMIT };
    let n = fps.num as nat;
    let d = fps.den as nat;
    let p = n * pow2(1074);
    let c = 1000 * pow2(1074);
    lemma2_to64();
    lemma2_to64_rest();
    lemma_pow2_adds(43, 1031);
    lemma_pow2_pos(1074);
    assert(limit.value() == c) by {
        assert(significand(RATE_LIMIT as nat) == 1000 * pow2(43));
        assert(place(RATE_LIMIT as nat) == 1031);
        let a = pow2(43);
        let b = pow2(1031);
        assert((1000 * a) * b == 1000 * (a * b)) by (nonlinear_arith);
    }
    lemma_weight_increases(RATE_LIMIT as nat, INFINITY as nat);
    let k = choose|k: nat| #[trigger]
        is_place(p, d, k) && if rounded(p, d, k) >= weight(INFINITY as nat) {
            rate.magnitude() == INFINITY
        } else {
            rate.magnitude() < INFINITY && weight(rate.magnitude()) == rounded(p, d, k)
        };
    let u = pow2(k);
    let t = p / (d * u);
    let rem = p % (d * u);
    lemma_pow2_pos(k);
    assert(d * u > 0) by (nonlinear_arith)
        requires
            d > 0,
            u > 0,
    ;
    lemma_fundamental_div_mod(p as int, (d * u) as int);
    lemma_pow2_adds(52, k);
    lemma_pow2_adds(10, 1074);
    if k >= 1032 {
        lemma_rate_high(p, d, k);
        assert(n > 1000 * d) by (nonlinear_arith)
            requires
                n * pow2(1074) > d * (1000 * pow2(1074)),
        ;
    } else {
        let f = pow2((1074 - k) as nat);
        let g = 1000 * f;
        lemma_pow2_adds((1074 - k) as nat, k);
        assert(c == g * u) by (nonlinear_arith)
            requires
                c == 1000 * (f * u),
                g == 1000 * f,
        ;
        if n <= 1000 * d {
            assert(p <= g * (d * u)) by (nonlinear_arith)
                requires
                    p == n * pow2(1074),
                    n <= 1000 * d,
                    1000 * pow2(1074) == g * u,
            ;
            assert(t <= g && (t == g ==> rem == 0)) by (nonlinear_arith)
                requires
                    p == (d * u) * t + rem,
                    0 <= rem,
                    p <= g * (d * u),
                    d * u > 0,
            ;
            assert(half_even(p, d * u) <= g);
            lemma_mul_inequality(half_even(p, d * u) as int, g as int, u as int);
        } else {
            lemma_pow2_adds(32, 1031);
            lemma_pow2_strictly_increases(1063, 1074);
            if k < 1031 {
                lemma_pow2_strictly_increases(k, 1031);
            }
            assert(d * u < pow2(1074)) by (nonlinear_arith)
                requires
                    d < pow2(32),
                    u <= pow2(1031),
                    u > 0,
                    pow2(1063) == pow2(32) * pow2(1031),
                    pow2(1063) < pow2(1074),
            ;
            assert(p >= g * (d * u) + pow2(1074)) by (nonlinear_arith)
                requires
                    p == n * pow2(1074),
                    n >= 1000 * d + 1,
                    1000 * pow2(1074) == g * u,
            ;
            assert(t >= g + 1) by (nonlinear_arith)
                requires
                    p == (d * u) * t + rem,
                    rem < d * u,
                    p >= g * (d * u) + pow2(1074),
                    d * u < pow2(1074),
            ;
            lemma_mul_strict_inequality(g as int, half_even(p, d * u) as int, u as int);
        }
    }
}

/// A rate that is rounded to a place this high is beyond the limit on either count.
proof fn lemma_rate_high(p: nat, d: nat, k: nat)
    requires
        d > 0,
        k >= 1032,
        is_place(p, d, k),
    ensures
        p > d * (1000 * pow2(1074)),
        rounded(p, d, k) > 1000 * pow2(1074),
{
    let u = pow2(k);
    lemma2_to64();
    lemma2_to64_rest();
    lemma_pow2_pos(k);
    lemma_pow2_pos(1074);
    lemma_pow2_adds(52, k);
    lemma_pow2_adds(10, 1074);
    if 52 + k > 1084 {
        lemma_pow2_strictly_increases(1084, 52 + k);
    }
    assert(p > d * (1000 * pow2(1074))) by (nonlinear_arith)
        requires
            d > 0,
            p >= d * pow2((52 + k) as nat),
            pow2((52 + k) as nat) >= 1024 * pow2(1074),
            pow2(1074) > 0,
    ;
    let t = p / (d * u);
    assert(d * u > 0) by (nonlinear_arith)
        requires
            d > 0,
            u > 0,
    ;
    lemma_fundamental_div_mod(p as int, (d * u) as int);
    assert(t >= pow2(52)) by (nonlinear_arith)
        requires
            p == (d * u) * t + p % (d * u),
            p % (d * u) < d * u,
            p >= d * (pow2(52) * u),
            d * u > 0,
    ;
    lemma_mul_inequality(pow2(52) as int, half_even(p, d * u) as int, u as int);
}

/// Metadata that passes the checks can be relied on: the duration is positive and finite, the
/// picture has a width and a height, the frame rate is positive and at most a thousand, the codec
/// and the pixel format are supported, and the audio fields belong together. Metadata of which
/// this holds passes the checks.
pub proof fn lemma_checked_metadata(info: Metadata)
    ensures
        failure(info) is None <==> {
            &&& info.duration.finite() && info.duration.value() > 0
            &&& info.resolution.0 > 0 && info.resolution.1 > 0
            &&& 0 < info.fps.num <= 1000 * info.fps.den
            &&& video_codecs().contains(lower_case(info.video_codec))
            &&& pixel_formats().contains(lower_case(info.pixel_fmt))
            &&& info.audio_sr is Some <==> info.audio_ch is Some
            &&& info.audio_sr is Some <==> info.audio_codec is Some
            &&& info.audio_sr is Some ==> 8000 <= info.audio_sr->0 <= 192000
        },
{
}

/// A failed check names the file that the metadata is of, if it names one.
pub proof fn lemma_check_path(info: Metadata)
    requires
        failure(info) is Some,
    ensures
        failure(info)->0.path() is Some ==> failure(info)->0.path() == Some(info.path),
{
}

/// The checks look neither at the keyframes nor at the file size.
pub proof fn lemma_checks_ignore(info: Metadata, keyframes: Seq<Binary64>, file_size: u64)
    ensures
        failure(Metadata { keyframes, file_size, ..info }) == failure(info),
{
}

/// The codecs and the pixel formats that are supported, and no others.
pub proof fn lemma_supported(name: Seq<char>)
    ensures
        video_codecs().contains(name) <==> {
            ||| name == "h264"@
            ||| name == "hevc"@
            ||| name == "h265"@
            ||| name == "vp8"@
            ||| name == "vp9"@
            ||| name == "av1"@
            ||| name == "mpeg4"@
            ||| name == "mpeg2video"@
            ||| name == "mjpeg"@
            ||| name == "prores"@
            ||| name == "dnxhd"@
            ||| name == "theora"@
        },
        pixel_formats().contains(name) <==> {
            ||| name == "yuv420p"@
            ||| name == "yuv422p"@
            ||| name == "yuv444p"@
            ||| name == "yuv420p10le"@
            ||| name == "yuv422p10le"@
            ||| name == "yuv444p10le"@
            ||| name == "yuvj420p"@
            ||| name == "yuvj422p"@
            ||| name == "yuvj444p"@
            ||| name == "rgba"@
            ||| name == "rgb24"@
            ||| name == "bgra"@
            ||| name == "nv12"@
            ||| name == "nv21"@
        },
{
    let c = video_codecs();
    assert(c[0] == "h264"@ && c[1] == "hevc"@ && c[2] == "h265"@ && c[3] == "vp8"@ && c[4]
        == "vp9"@ && c[5] == "av1"@ && c[6] == "mpeg4"@ && c[7] == "mpeg2video"@ && c[8]
        == "mjpeg"@ && c[9] == "prores"@ && c[10] == "dnxhd"@ && c[11] == "theora"@);
    let p = pixel_formats();
    assert(p[0] == "yuv420p"@ && p[1] == "yuv422p"@ && p[2] == "yuv444p"@ && p[3]
        == "yuv420p10le"@ && p[4] == "yuv422p10le"@ && p[5] == "yuv444p10le"@ && p[6]
        == "yuvj420p"@ && p[7] == "yuvj422p"@ && p[8] == "yuvj444p"@ && p[9] == "rgba"@ && p[10]
        == "rgb24"@ && p[11] == "bgra"@ && p[12] == "nv12"@ && p[13] == "nv21"@);
}

/// The failure is about the first thing that is wrong, in this order: the duration, the
/// resolution, the frame rate, the codec, the pixel format, the audio fields. It carries what is
/// wrong.
pub proof fn lemma_first_failure(info: Metadata)
    ensures
        ({
            let rate = decimal(info.fps.num as nat).push('/') + decimal(info.fps.den as nat);
            let path = info.path;
            let incomplete = info.audio_sr is Some != info.audio_ch is Some || info.audio_sr
                is Some != info.audio_codec is Some;
            if info.duration.magnitude() >= 0x7FF0_0000_0000_0000 || info.duration.value() <= 0 {
                failure(info) == Some(
                    Failure::InvalidDuration { path, duration: info.duration },
                )
            } else if info.resolution.0 == 0 || info.resolution.1 == 0 {
                failure(info) == Some(
                    Failure::InvalidResolution {
                        path,
                        width: info.resolution.0,
                        height: info.resolution.1,
                    },
                )
            } else if info.fps.num == 0 || info.fps.den == 0 {
                failure(info) == Some(Failure::InvalidFrameRate { path, fps_str: rate })
            } else if info.fps.num > 1000 * info.fps.den {
                failure(info) == Some(
                    Failure::InvalidFrameRate {
                        path,
                        fps_str: rate + " (exceeds 1000 fps limit)"@,
                    },
                )
            } else if !video_codecs().contains(lower_case(info.video_codec)) {
                failure(info) == Some(
                    Failure::UnsupportedFormat {
                        path,
                        value: "video codec '"@ + info.video_codec + "'"@,
                    },
                )
            } else if !pixel_formats().contains(lower_case(info.pixel_fmt)) {
                failure(info) == Some(
                    Failure::UnsupportedFormat {
                        path,
                        value: "pixel format '"@ + info.pixel_fmt + "'"@,
                    },
                )
            } else if incomplete {
                failure(info) == Some(
                    Failure::MissingData(
                        "audio fields incomplete: audio_sr, audio_ch, and audio_codec must all be present or all absent"@,
                    ),
                )
            } else if info.audio_sr is Some && !(8000 <= info.audio_sr->0 <= 192000) {
                failure(info) == Some(
                    Failure::MissingData(
                        "audio sample rate out of valid range (8000–192000 Hz)"@,
                    ),
                )
            } else {
                failure(info) is None
            }
        }),
{
    lemma_fraction(info.fps.num, info.fps.den);
}

/// The checks on their own find what is wrong with what they look at, whatever else is wrong.
pub proof fn lemma_checks_alone(info: Metadata)
    ensures
        failure(info) is None ==> {
            &&& duration_failure(info) is None
            &&& resolution_failure(info) is None
            &&& fps_failure(info) is None
            &&& video_codec_failure(info) is None
            &&& pixel_fmt_failure(info) is None
            &&& audio_failure(info) is None
        },
        duration_failure(info) is None <==> info.duration.magnitude() < 0x7FF0_0000_0000_0000
            && info.duration.value() > 0,
        resolution_failure(info) is None <==> info.resolution.0 != 0 && info.resolution.1 != 0,
        fps_failure(info) is None <==> 0 < info.fps.num <= 1000 * info.fps.den,
        video_codec_failure(info) is None <==> video_codecs().contains(
            lower_case(info.video_codec),
        ),
        pixel_fmt_failure(info) is None <==> pixel_formats().contains(lower_case(info.pixel_fmt)),
        audio_failure(info) is None <==> {
            &&& info.audio_sr is Some <==> info.audio_ch is Some
            &&& info.audio_sr is Some <==> info.audio_codec is Some
            &&& info.audio_sr is Some ==> 8000 <= info.audio_sr->0 <= 192000
        },
{
}

/// A check passes exactly where nothing is wrong, and fails with exactly what is.
pub proof fn lemma_checked(r: Result<(), ProbeError>, expected: Option<Failure>)
    requires
        checked(r, expected),
    ensures
        r is Ok <==> expected is None,
        r matches Err(e) ==> expected == Some(e@),
{
}

/// Each check goes by the path and by what it checks, and by nothing else.
pub proof fn lemma_checks_local(info: Metadata, other: Metadata)
    requires
        info.path == other.path,
    ensures
        info.duration == other.duration ==> duration_failure(info) == duration_failure(other),
        info.resolution == other.resolution ==> resolution_failure(info) == resolution_failure(
            other,
        ),
        info.fps == other.fps ==> fps_failure(info) == fps_failure(other),
        info.video_codec == other.video_codec ==> video_codec_failure(info) == video_codec_failure(
            other,
        ),
        info.pixel_fmt == other.pixel_fmt ==> pixel_fmt_failure(info) == pixel_fmt_failure(other),
        info.audio_sr == other.audio_sr && info.audio_ch == other.audio_ch && info.audio_codec
            == other.audio_codec ==> audio_failure(info) == audio_failure(other),
{
}

/// The first check that fails is the failure of all of them.
pub proof fn lemma_failure_order(info: Metadata)
    ensures
        failure(info) == if duration_failure(info) is Some {
            duration_failure(info)
        } else if resolution_failure(info) is Some {
            resolution_failure(info)
        } else if fps_failure(info) is Some {
            fps_failure(info)
        } else if video_codec_failure(info) is Some {
            video_codec_failure(info)
        } else if pixel_fmt_failure(info) is Some {
            pixel_fmt_failure(info)
        } else {
            audio_failure(info)
        },
{
}

} // verus!
