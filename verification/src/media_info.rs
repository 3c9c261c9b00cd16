//! What a probe finds out about a file.
use crate::binary64::{is_quotient, Binary64};
use crate::paths::PathMap;
use crate::text::{decimal, push_decimal, same_text};
use std::path::PathBuf;
use vstd::prelude::*;

verus! {

// ─── Frame rates ───

/// A frame rate as an exact fraction, such as 30000/1001.
#[derive(Debug, Clone, Copy, PartialEq, Eq, Structural)]
pub struct Fraction {
    pub num: u32,
    pub den: u32,
}

impl Fraction {
    /// The text of the fraction: `num/den`, in decimal.
    pub open spec fn text(self) -> Seq<char> {
        decimal(self.num as nat) + "/"@ + decimal(self.den as nat)
    }

    /// Whether the fraction is a frame rate: neither part is zero.
    pub open spec fn valid(self) -> bool {
        self.den != 0 && self.num != 0
    }

    pub fn new(num: u32, den: u32) -> (r: Fraction)
        ensures
            r.num == num,
            r.den == den,
    {
        Fraction { num, den }
    }

    /// The frame rate as a binary64 number, the one nearest to the fraction.
    pub fn as_f64(&self) -> (r: Binary64)
        requires
            self.den != 0,
        ensures
            is_quotient(self.num as nat, self.den as nat, r),
    {
        Binary64::quotient(self.num, self.den)
    }

    /// Whether the fraction is a frame rate: neither part is zero.
    pub fn is_valid(&self) -> (r: bool)
        ensures
            r == self.valid(),
    {
        self.den != 0 && self.num != 0
    }

    /// The text of the fraction: `num/den`, in decimal.
    pub fn to_text(&self) -> (r: String)
        ensures
            r@ == self.text(),
    {
        let mut r: String = String::new();
        push_decimal(&mut r, self.num);
        r.append("/");
        push_decimal(&mut r, self.den);
        assert(r@ =~= self.text());
        r
    }
}

impl Default for Fraction {
    /// Thirty frames a second.
    fn default() -> (r: Fraction)
        ensures
            r.num == 30,
            r.den == 1,
    {
        Fraction { num: 30, den: 1 }
    }
}

// ─── Metadata ───

/// The metadata of a media file.
#[derive(Debug)]
pub struct MediaInfo {
    /// The file.
    pub path: PathBuf,
    /// Its duration in seconds.
    pub duration: Binary64,
    /// Its exact frame rate.
    pub fps: Fraction,
    /// The size of the picture: width and height in pixels.
    pub resolution: (u32, u32),
    /// The name of the video codec, such as `h264`.
    pub video_codec: String,
    /// The name of the pixel format, such as `yuv420p`.
    pub pixel_fmt: String,
    /// The audio sample rate in hertz; none without audio.
    pub audio_sr: Option<u32>,
    /// The number of audio channels; none without audio.
    pub audio_ch: Option<u8>,
    /// The name of the audio codec; none without audio.
    pub audio_codec: Option<String>,
    /// The times of the keyframes in seconds, in ascending order.
    pub keyframes: Vec<Binary64>,
    /// The size of the file in bytes.
    pub file_size: u64,
}

/// The metadata of a media file, with texts by the characters that they hold.
#[verifier::ext_equal]
pub struct Metadata {
    pub path: PathBuf,
    pub duration: Binary64,
    pub fps: Fraction,
    pub resolution: (u32, u32),
    pub video_codec: Seq<char>,
    pub pixel_fmt: Seq<char>,
    pub audio_sr: Option<u32>,
    pub audio_ch: Option<u8>,
    pub audio_codec: Option<Seq<char>>,
    pub keyframes: Seq<Binary64>,
    pub file_size: u64,
}

/// The characters of an optional text.
pub open spec fn text_view(s: Option<String>) -> Option<Seq<char>> {
    match s {
        Some(t) => Some(t@),
        None => None,
    }
}

impl View for MediaInfo {
    type V = Metadata;

    open spec fn view(&self) -> Metadata {
        Metadata {
            path: self.path,
            duration: self.duration,
            fps: self.fps,
            resolution: self.resolution,
            video_codec: self.video_codec@,
            pixel_fmt: self.pixel_fmt@,
            audio_sr: self.audio_sr,
            audio_ch: self.audio_ch,
            audio_codec: text_view(self.audio_codec),
            keyframes: self.keyframes@,
            file_size: self.file_size,
        }
    }
}

/// Which keyframe is the nearest at or before `ts`: the last in order that is not after it.
pub open spec fn keyframe_before(keyframes: Seq<Binary64>, ts: Binary64) -> Option<Binary64>
    decreases keyframes.len(),
{
    if keyframes.len() == 0 {
        None
    } else if keyframes.last().at_most(ts) {
        Some(keyframes.last())
    } else {
        keyframe_before(keyframes.drop_last(), ts)
    }
}

/// Whether the times are numbers, in ascending order.
pub open spec fn ascending(times: Seq<Binary64>) -> bool {
    &&& forall|i: int| 0 <= i < times.len() ==> !(#[trigger] times[i]).nan()
    &&& forall|i: int, j: int|
        0 <= i < j < times.len() ==> (#[trigger] times[i]).at_most(#[trigger] times[j])
}

impl MediaInfo {
    /// Whether the file has an audio stream.
    pub fn has_audio(&self) -> (r: bool)
        ensures
            r == (self.audio_sr is Some),
    {
        self.audio_sr.is_some()
    }

    /// The frame rate as a binary64 number.
    pub fn fps_f64(&self) -> (r: Binary64)
        requires
            self.fps.den != 0,
        ensures
            is_quotient(self.fps.num as nat, self.fps.den as nat, r),
    {
        self.fps.as_f64()
    }

    /// The width of the picture.
    pub fn width(&self) -> (r: u32)
        ensures
            r == self.resolution.0,
    {
        self.resolution.0
    }

    /// The height of the picture.
    pub fn height(&self) -> (r: u32)
        ensures
            r == self.resolution.1,
    {
        self.resolution.1
    }

    /// Whether the pixel format is YUV 4:2:0.
    pub fn is_yuv420p(&self) -> (r: bool)
        ensures
            r == (self.pixel_fmt@ == "yuv420p"@),
    {
        same_text(self.pixel_fmt.as_str(), "yuv420p")
    }

    /// The nearest keyframe at or before `ts`, and zero where there is none.
    pub fn nearest_keyframe_before(&self, ts: Binary64) -> (r: Binary64)
        ensures
            match keyframe_before(self.keyframes@, ts) {
                Some(k) => r == k,
                None => r.bits == 0,
            },
    {
        let mut n: usize = self.keyframes.len();
        assert(self.keyframes@.take(n as int) =~= self.keyframes@);
        while n > 0
            invariant
                n <= self.keyframes.len(),
                keyframe_before(self.keyframes@, ts) == keyframe_before(
                    self.keyframes@.take(n as int),
                    ts,
                ),
            decreases n,
        {
            let ghost seen = self.keyframes@.take(n as int);
            assert(seen.last() == self.keyframes@[n - 1]);
            assert(seen.drop_last() =~= self.keyframes@.take(n - 1));
            if self.keyframes[n - 1].is_at_most(ts) {
                return self.keyframes[n - 1];
            }
            n = n - 1;
        }
        Binary64::from_bits(0)
    }
}

impl Clone for MediaInfo {
    fn clone(&self) -> (r: MediaInfo)
        ensures
            r@ == self@,
    {
        let r: MediaInfo = MediaInfo {
            path: self.path.clone(),
            duration: self.duration,
            fps: self.fps,
            resolution: self.resolution,
            video_codec: self.video_codec.clone(),
            pixel_fmt: self.pixel_fmt.clone(),
            audio_sr: self.audio_sr,
            audio_ch: self.audio_ch,
            audio_codec: match &self.audio_codec {
                Some(codec) => Some(codec.clone()),
                None => None,
            },
            keyframes: copied(&self.keyframes),
            file_size: self.file_size,
        };
        assert(r@ =~= self@);
        r
    }
}

fn copied(times: &Vec<Binary64>) -> (r: Vec<Binary64>)
    ensures
        r@ == times@,
{
    let mut r: Vec<Binary64> = Vec::new();
    let mut i: usize = 0;
    while i < times.len()
        invariant
            i <= times.len(),
            r@ == times@.take(i as int),
        decreases times.len() - i,
    {
        r.push(times[i]);
        i = i + 1;
        assert(r@ =~= times@.take(i as int));
    }
    assert(times@.take(i as int) =~= times@);
    r
}

/// From the path of a file to its metadata.
pub type MediaInfoMap = PathMap<MediaInfo>;

// ─── Laws ───

/// Among keyframes in ascending order, the one that is found is the greatest that is not after
/// `ts`. None is found exactly where all are after it, or `ts` is not a number.
pub proof fn lemma_keyframe_before(keyframes: Seq<Binary64>, ts: Binary64)
    requires
        ascending(keyframes),
    ensures
        match keyframe_before(keyframes, ts) {
            Some(k) => keyframes.contains(k) && k.at_most(ts) && forall|i: int|
                0 <= i < keyframes.len() && (#[trigger] keyframes[i]).at_most(ts)
                    ==> keyframes[i].at_most(k),
            None => forall|i: int|
                0 <= i < keyframes.len() ==> !(#[trigger] keyframes[i]).at_most(ts),
        },
        keyframes.len() > 0 && ts.less(keyframes[0]) ==> keyframe_before(keyframes, ts) is None,
    decreases keyframes.len(),
{
    if keyframes.len() > 0 {
        let before = keyframes.drop_last();
        let last = keyframes.last();
        lemma_keyframe_before(before, ts);
        assert(keyframes.contains(last));
        if last.at_most(ts) {
            assert forall|i: int|
                0 <= i < keyframes.len() && (#[trigger] keyframes[i]).at_most(
                    ts,
                ) implies keyframes[i].at_most(last) by {
                if i < before.len() {
                    assert(keyframes[i].at_most(keyframes[keyframes.len() - 1]));
                }
            }
            if keyframes.len() > 1 {
                assert(keyframes[0].at_most(keyframes[keyframes.len() - 1]));
            }
        } else {
            assert forall|i: int| 0 <= i < keyframes.len() implies (i < before.len()
                && before[i] == #[trigger] keyframes[i]) || keyframes[i] == last by {}
            if let Some(k) = keyframe_before(before, ts) {
                let i = choose|i: int| 0 <= i < before.len() && before[i] == k;
                assert(keyframes[i] == k);
            }
        }
    }
}

/// One more keyframe at the end is the one that is found, where it is a number that is not after
/// `ts`. Else what was found before is found.
pub proof fn lemma_keyframe_before_push(keyframes: Seq<Binary64>, k: Binary64, ts: Binary64)
    ensures
        keyframe_before(Seq::empty(), ts) is None,
        keyframe_before(keyframes.push(k), ts) == if !k.nan() && !ts.nan() && k.value()
            <= ts.value() {
            Some(k)
        } else {
            keyframe_before(keyframes, ts)
        },
{
    assert(keyframes.push(k).drop_last() =~= keyframes);
}

/// Times are ascending where each is a number that is not after those that follow it.
pub proof fn lemma_ascending(times: Seq<Binary64>)
    ensures
        ascending(times) <==> {
            &&& forall|i: int| 0 <= i < times.len() ==> !(#[trigger] times[i]).nan()
            &&& forall|i: int, j: int|
                0 <= i < j < times.len() ==> (#[trigger] times[i]).value() <= (
                #[trigger] times[j]).value()
        },
{
    if forall|i: int, j: int|
        0 <= i < j < times.len() ==> (#[trigger] times[i]).value() <= (
        #[trigger] times[j]).value() {
        if forall|i: int| 0 <= i < times.len() ==> !(#[trigger] times[i]).nan() {
            assert(ascending(times));
        }
    }
    if ascending(times) {
        assert forall|i: int, j: int| 0 <= i < j < times.len() implies (
        #[trigger] times[i]).value() <= (#[trigger] times[j]).value() by {
            assert(times[i].at_most(times[j]));
        }
    }
}

/// What metadata is known by holds every field of it.
pub proof fn lemma_metadata_view(info: MediaInfo)
    ensures
        info@.path == info.path,
        info@.duration == info.duration,
        info@.fps == info.fps,
        info@.resolution == info.resolution,
        info@.video_codec == info.video_codec@,
        info@.pixel_fmt == info.pixel_fmt@,
        info@.audio_sr == info.audio_sr,
        info@.audio_ch == info.audio_ch,
        info.audio_codec matches Some(s) ==> info@.audio_codec == Some(s@),
        info.audio_codec is None ==> info@.audio_codec is None,
        info@.keyframes == info.keyframes@,
        info@.file_size == info.file_size,
{
}

/// A fraction is a frame rate where neither part is zero, and its text is the decimal digits of
/// both parts with a slash between them.
pub proof fn lemma_fraction(num: u32, den: u32)
    ensures
        (Fraction { num, den }).valid() <==> num != 0 && den != 0,
        (Fraction { num, den }).text() == decimal(num as nat).push('/') + decimal(den as nat),
{
    reveal_strlit("/");
    assert((Fraction { num, den }).text() =~= decimal(num as nat).push('/') + decimal(den as nat));
}

} // verus!
