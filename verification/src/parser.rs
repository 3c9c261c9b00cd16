//! From what ffprobe wrote to metadata.
use crate::binary64::{
    is_sum, lemma_sum_exists, lemma_sum_grows, lemma_sum_of_zero, lemma_weight_zero, sum, Binary64,
};
use crate::error::{Failure, ProbeError};
use crate::json::{integer_member, json_of, json_of_all, member, text_member, Json};
use crate::media_info::{Fraction, MediaInfo, Metadata};
use crate::paths::owned_path;
use crate::reading::{read_told, reads_all, told_of, Told};
use crate::text::{
    chars_of, decimal, is_digit, lemma_decimal_reads_back, lemma_parts_join, lemma_parts_none,
    lemma_parts_some, parse_unsigned, parts, same_text, split, unsigned, unsigned_digits,
};
use serde_json::Value;
use std::path::{Path, PathBuf};
use vstd::prelude::*;

verus! {

// ─── Frame rates ───

/// The integer that a part of a frame rate reads as; zero where it is none.
pub open spec fn rate_part(s: Seq<char>) -> nat {
    match unsigned(s, u32::MAX as nat) {
        Some(n) => n,
        None => 0,
    }
}

/// The frame rate that a text reads as: `num/den`, or `num` alone for whole frames a second,
/// with no part zero.
pub open spec fn rate_of(s: Seq<char>) -> Option<Fraction> {
    let p = parts(s, '/');
    if p.len() == 2 && rate_part(p[0]) != 0 && rate_part(p[1]) != 0 {
        Some(Fraction { num: rate_part(p[0]) as u32, den: rate_part(p[1]) as u32 })
    } else if p.len() == 1 && rate_part(p[0]) != 0 {
        Some(Fraction { num: rate_part(p[0]) as u32, den: 1 })
    } else {
        None
    }
}

/// Reads a part of a frame rate, which is zero where it is no integer.
fn parse_rate_part(s: &Vec<char>) -> (r: u32)
    ensures
        r as nat == rate_part(s@),
{
    match parse_unsigned(s, u32::MAX as u64) {
        Some(n) => n as u32,
        None => 0,
    }
}

/// Reads a frame rate such as `30000/1001`.
pub fn parse_fps(path: &Path, fps_str: &str) -> (r: Result<Fraction, ProbeError>)
    ensures
        match r {
            Ok(f) => rate_of(fps_str@) == Some(f),
            Err(e) => rate_of(fps_str@) is None && e@ == (Failure::InvalidFrameRate {
                path: owned_path(path),
                fps_str: fps_str@,
            }),
        },
{
    let p: Vec<Vec<char>> = split(fps_str, '/');
    let ghost texts = p@.map_values(|v: Vec<char>| v@);
    if p.len() == 2 {
        assert(texts[0] == p@[0]@ && texts[1] == p@[1]@);
        let num: u32 = parse_rate_part(&p[0]);
        let den: u32 = parse_rate_part(&p[1]);
        if num != 0 && den != 0 {
            return Ok(Fraction::new(num, den));
        }
    } else if p.len() == 1 {
        assert(texts[0] == p@[0]@);
        let num: u32 = parse_rate_part(&p[0]);
        if num != 0 {
            return Ok(Fraction::new(num, 1));
        }
    }
    Err(ProbeError::InvalidFrameRate { path: path.to_path_buf(), fps_str: fps_str.to_string() })
}

// ─── Streams ───

/// The first of the streams whose type is `kind`.
pub open spec fn first_stream(streams: Seq<Json>, kind: Seq<char>) -> Option<Json>
    decreases streams.len(),
{
    if streams.len() == 0 {
        None
    } else if streams[0].member("codec_type"@).text() == Some(kind) {
        Some(streams[0])
    } else {
        first_stream(streams.drop_first(), kind)
    }
}

/// What is read of a video stream.
pub struct VideoStream {
    pub codec_name: String,
    pub width: u32,
    pub height: u32,
    pub fps: Fraction,
    pub pix_fmt: String,
}

/// What is read of a video stream, with texts by the characters that they hold.
pub struct Video {
    pub codec_name: Seq<char>,
    pub width: u32,
    pub height: u32,
    pub fps: Fraction,
    pub pix_fmt: Seq<char>,
}

impl View for VideoStream {
    type V = Video;

    open spec fn view(&self) -> Video {
        Video {
            codec_name: self.codec_name@,
            width: self.width,
            height: self.height,
            fps: self.fps,
            pix_fmt: self.pix_fmt@,
        }
    }
}

/// What is read of an audio stream.
pub struct AudioStream {
    pub codec_name: String,
    pub sample_rate: u32,
    pub channels: u8,
}

/// What is read of an audio stream, with its text by the characters that it holds.
pub struct Audio {
    pub codec_name: Seq<char>,
    pub sample_rate: u32,
    pub channels: u8,
}

impl View for AudioStream {
    type V = Audio;

    open spec fn view(&self) -> Audio {
        Audio {
            codec_name: self.codec_name@,
            sample_rate: self.sample_rate,
            channels: self.channels,
        }
    }
}

/// A side of the picture: the low 32 bits of the integer that is written.
pub open spec fn side(n: u64) -> u32 {
    (n % 0x1_0000_0000) as u32
}

/// The text of a member, or `default` where it has none.
pub open spec fn text_or(v: Json, default: Seq<char>) -> Seq<char> {
    match v.text() {
        Some(s) => s,
        None => default,
    }
}

/// The first video stream: its codec and both sides are required, its frame rate must be one,
/// and its pixel format is taken to be YUV 4:2:0 where it is not told.
pub open spec fn video_of(path: PathBuf, streams: Seq<Json>) -> Result<Video, Failure> {
    match first_stream(streams, "video"@) {
        None => Err(Failure::NoVideoStream(path)),
        Some(v) => {
            let rate = text_or(v.member("avg_frame_rate"@), "0/1"@);
            match (
                v.member("codec_name"@).text(),
                v.member("width"@).integer(),
                v.member("height"@).integer(),
                rate_of(rate),
            ) {
                (None, _, _, _) => Err(Failure::MissingData("video codec_name"@)),
                (_, None, _, _) => Err(Failure::MissingData("width"@)),
                (_, _, None, _) => Err(Failure::MissingData("height"@)),
                (_, _, _, None) => Err(Failure::InvalidFrameRate { path, fps_str: rate }),
                (Some(codec_name), Some(w), Some(h), Some(fps)) => Ok(
                    Video {
                        codec_name,
                        width: side(w),
                        height: side(h),
                        fps,
                        pix_fmt: text_or(v.member("pix_fmt"@), "yuv420p"@),
                    },
                ),
            }
        },
    }
}

/// The sample rate that is written: 44100 hertz where it is no integer.
pub open spec fn sample_rate_of(v: Json) -> u32 {
    match v.member("sample_rate"@).text() {
        Some(s) => match unsigned(s, u32::MAX as nat) {
            Some(n) => n as u32,
            None => 44100,
        },
        None => 44100,
    }
}

/// The number of channels that is written: two where it is no integer of eight bits.
pub open spec fn channels_of(v: Json) -> u8 {
    match v.member("channels"@).integer() {
        Some(n) => if n <= 255 {
            n as u8
        } else {
            2
        },
        None => 2,
    }
}

/// The first audio stream. Its codec is called unknown where it is not told.
pub open spec fn audio_of(streams: Seq<Json>) -> Option<Audio> {
    match first_stream(streams, "audio"@) {
        None => None,
        Some(a) => Some(
            Audio {
                codec_name: text_or(a.member("codec_name"@), "unknown"@),
                sample_rate: sample_rate_of(a),
                channels: channels_of(a),
            },
        ),
    }
}

/// The first of the streams whose type is `kind`.
fn find_stream<'a>(streams: &'a Vec<Value>, kind: &str) -> (r: Option<&'a Value>)
    ensures
        match r {
            Some(v) => first_stream(json_of_all(streams@), kind@) == Some(json_of(*v)),
            None => first_stream(json_of_all(streams@), kind@) is None,
        },
{
    let ghost all = json_of_all(streams@);
    let mut i: usize = 0;
    assert(all.skip(0) =~= all);
    while i < streams.len()
        invariant
            i <= streams.len(),
            all == json_of_all(streams@),
            first_stream(all, kind@) == first_stream(all.skip(i as int), kind@),
        decreases streams.len() - i,
    {
        let ghost rest = all.skip(i as int);
        assert(rest[0] == json_of(streams@[i as int]));
        assert(rest.drop_first() =~= all.skip(i + 1));
        if let Some(s) = text_member(&streams[i], "codec_type") {
            if same_text(s, kind) {
                return Some(&streams[i]);
            }
        }
        i = i + 1;
    }
    None
}

/// Reads the first video stream.
pub fn extract_video_stream(path: &Path, streams: &Vec<Value>) -> (r: Result<
    VideoStream,
    ProbeError,
>)
    ensures
        match r {
            Ok(v) => video_of(owned_path(path), json_of_all(streams@)) == Ok::<Video, Failure>(v@),
            Err(e) => video_of(owned_path(path), json_of_all(streams@)) == Err::<Video, Failure>(
                e@,
            ),
        },
{
    let stream: &Value = match find_stream(streams, "video") {
        Some(v) => v,
        None => return Err(ProbeError::NoVideoStream(path.to_path_buf())),
    };
    let codec_name: &str = match text_member(stream, "codec_name") {
        Some(s) => s,
        None => return Err(ProbeError::MissingData("video codec_name")),
    };
    let width: u64 = match integer_member(stream, "width") {
        Some(n) => n,
        None => return Err(ProbeError::MissingData("width")),
    };
    let height: u64 = match integer_member(stream, "height") {
        Some(n) => n,
        None => return Err(ProbeError::MissingData("height")),
    };
    let fps_str: &str = match text_member(stream, "avg_frame_rate") {
        Some(s) => s,
        None => "0/1",
    };
    let fps: Fraction = parse_fps(path, fps_str)?;
    let pix_fmt: &str = match text_member(stream, "pix_fmt") {
        Some(s) => s,
        None => "yuv420p",
    };
    Ok(
        VideoStream {
            codec_name: codec_name.to_string(),
            width: (width % 0x1_0000_0000) as u32,
            height: (height % 0x1_0000_0000) as u32,
            fps,
            pix_fmt: pix_fmt.to_string(),
        },
    )
}

/// Reads the first audio stream.
pub fn extract_audio_stream(streams: &Vec<Value>) -> (r: Option<AudioStream>)
    ensures
        match r {
            Some(a) => audio_of(json_of_all(streams@)) == Some(a@),
            None => audio_of(json_of_all(streams@)) is None,
        },
{
    let stream: &Value = match find_stream(streams, "audio") {
        Some(v) => v,
        None => return None,
    };
    let codec_name: &str = match text_member(stream, "codec_name") {
        Some(s) => s,
        None => "unknown",
    };
    let sample_rate: u32 = match text_member(stream, "sample_rate") {
        Some(s) => match parse_unsigned(&chars_of(s), u32::MAX as u64) {
            Some(n) => n as u32,
            None => 44100,
        },
        None => 44100,
    };
    let channels: u8 = match integer_member(stream, "channels") {
        Some(n) => if n <= 255 {
            n as u8
        } else {
            2
        },
        None => 2,
    };
    Some(AudioStream { codec_name: codec_name.to_string(), sample_rate, channels })
}

// ─── Duration and size ───

/// The durations that a document tells: the one of the container, and the one of each stream.
pub struct Durations {
    pub format: Told,
    pub streams: Seq<Told>,
}

/// Whether a number is greater than zero.
pub open spec fn positive(d: Binary64) -> bool {
    !d.nan() && d.value() > 0
}

/// Whether a positive number is told.
pub open spec fn tells_positive(told: Told) -> bool {
    told matches Told::Number(d) && positive(d)
}

/// Whether no duration is told, neither of the container nor of a stream.
pub open spec fn all_absent(durations: Durations) -> bool {
    &&& durations.format is Absent
    &&& forall|i: int| 0 <= i < durations.streams.len() ==> #[trigger] durations.streams[i] is Absent
}

/// The sum of the durations that are told and positive, from the first stream on.
pub open spec fn total(durations: Seq<Told>) -> Binary64
    decreases durations.len(),
{
    if durations.len() == 0 {
        Binary64 { bits: 0 }
    } else {
        let before = total(durations.drop_last());
        match durations.last() {
            Told::Number(d) => if positive(d) {
                sum(before, d)
            } else {
                before
            },
            _ => before,
        }
    }
}

/// The duration of a file: that of the container where it is positive, and else the sum of the
/// positive durations of the streams. It is missing where none is told at all, and invalid where
/// none that is told is positive.
pub open spec fn duration_of(path: PathBuf, durations: Durations) -> Result<Binary64, Failure> {
    if tells_positive(durations.format) {
        Ok(durations.format->Number_0)
    } else if positive(total(durations.streams)) {
        Ok(total(durations.streams))
    } else if all_absent(durations) {
        Err(Failure::MissingData("duration"@))
    } else {
        Err(Failure::InvalidDuration { path, duration: Binary64 { bits: 0 } })
    }
}

/// The size that a container tells: zero where it is no integer of 64 bits.
pub open spec fn size_of_file(format: Json) -> u64 {
    match format.member("size"@).text() {
        Some(s) => match unsigned(s, u64::MAX as nat) {
            Some(n) => n as u64,
            None => 0,
        },
        None => 0,
    }
}

/// The duration of a file, from the durations that its document tells.
pub fn parse_duration(path: &Path, format: Told, streams: &Vec<Told>) -> (r: Result<
    Binary64,
    ProbeError,
>)
    ensures
        format is Number && !format->Number_0.nan() && format->Number_0.value() > 0 ==> r == Ok::<
            Binary64,
            ProbeError,
        >(format->Number_0),
        match r {
            Ok(d) => duration_of(owned_path(path), Durations { format, streams: streams@ }) == Ok::<
                Binary64,
                Failure,
            >(d),
            Err(e) => duration_of(owned_path(path), Durations { format, streams: streams@ })
                == Err::<Binary64, Failure>(e@),
        },
{
    let mut absent: bool = true;
    match format {
        Told::Number(d) => {
            if d.is_positive() {
                return Ok(d);
            }
            absent = false;
        },
        Told::NoNumber => {
            absent = false;
        },
        Told::Absent => {},
    }
    let mut t: Binary64 = Binary64::from_bits(0);
    let mut i: usize = 0;
    while i < streams.len()
        invariant
            i <= streams.len(),
            t == total(streams@.take(i as int)),
            absent <==> all_absent(Durations { format, streams: streams@.take(i as int) }),
        decreases streams.len() - i,
    {
        let ghost seen = streams@.take(i as int);
        let ghost more = streams@.take(i + 1);
        assert(more.drop_last() =~= seen);
        proof {
            lemma_all_absent(format, more);
        }
        match streams[i] {
            Told::Number(d) => {
                if d.is_positive() {
                    t = t.plus(d);
                }
                absent = false;
            },
            Told::NoNumber => {
                absent = false;
            },
            Told::Absent => {},
        }
        i = i + 1;
    }
    assert(streams@.take(i as int) =~= streams@);
    if t.is_positive() {
        return Ok(t);
    }
    if absent {
        return Err(ProbeError::MissingData("duration"));
    }
    Err(
        ProbeError::InvalidDuration {
            path: path.to_path_buf(),
            duration: Binary64::from_bits(0),
        },
    )
}

/// The size that a container tells.
pub fn parse_file_size(format: &Value) -> (r: u64)
    ensures
        r == size_of_file(json_of(*format)),
{
    match text_member(format, "size") {
        Some(s) => match parse_unsigned(&chars_of(s), u64::MAX) {
            Some(n) => n,
            None => 0,
        },
        None => 0,
    }
}

// ─── Documents ───

/// The metadata that a document tells of the file `path`, with the durations that it tells. The
/// keyframes are not told there.
pub open spec fn metadata_of(path: PathBuf, raw: Json, durations: Durations) -> Result<
    Metadata,
    Failure,
> {
    match raw.member("streams"@).items() {
        None => Err(Failure::MissingData("streams"@)),
        Some(streams) => match (video_of(path, streams), duration_of(path, durations)) {
            (Err(e), _) => Err(e),
            (_, Err(e)) => Err(e),
            (Ok(video), Ok(duration)) => {
                let audio = audio_of(streams);
                Ok(
                    Metadata {
                        path,
                        duration,
                        fps: video.fps,
                        resolution: (video.width, video.height),
                        video_codec: video.codec_name,
                        pixel_fmt: video.pix_fmt,
                        audio_sr: match audio {
                            Some(a) => Some(a.sample_rate),
                            None => None,
                        },
                        audio_ch: match audio {
                            Some(a) => Some(a.channels),
                            None => None,
                        },
                        audio_codec: match audio {
                            Some(a) => Some(a.codec_name),
                            None => None,
                        },
                        keyframes: Seq::empty(),
                        file_size: size_of_file(raw.member("format"@)),
                    },
                )
            },
        },
    }
}

/// Whether a probe came out with this metadata or this failure.
pub open spec fn probed(r: Result<MediaInfo, ProbeError>, expected: Result<Metadata, Failure>) -> bool {
    match r {
        Ok(info) => expected == Ok::<Metadata, Failure>(info@),
        Err(e) => expected == Err::<Metadata, Failure>(e@),
    }
}

/// The metadata that a document tells, with the durations that it tells.
pub fn assemble(path: &Path, raw: &Value, format: Told, streams: &Vec<Told>) -> (r: Result<
    MediaInfo,
    ProbeError,
>)
    ensures
        probed(
            r,
            metadata_of(
                owned_path(path),
                json_of(*raw),
                Durations { format, streams: streams@ },
            ),
        ),
{
    let items: &Vec<Value> = match member(raw, "streams").as_array() {
        Some(items) => items,
        None => return Err(ProbeError::MissingData("streams")),
    };
    let video: VideoStream = extract_video_stream(path, items)?;
    let audio: Option<AudioStream> = extract_audio_stream(items);
    let duration: Binary64 = parse_duration(path, format, streams)?;
    let file_size: u64 = parse_file_size(member(raw, "format"));
    let audio_sr: Option<u32> = match &audio {
        Some(a) => Some(a.sample_rate),
        None => None,
    };
    let audio_ch: Option<u8> = match &audio {
        Some(a) => Some(a.channels),
        None => None,
    };
    let audio_codec: Option<String> = match audio {
        Some(a) => Some(a.codec_name),
        None => None,
    };
    let info: MediaInfo = MediaInfo {
        path: path.to_path_buf(),
        duration,
        fps: video.fps,
        resolution: (video.width, video.height),
        video_codec: video.codec_name,
        pixel_fmt: video.pix_fmt,
        audio_sr,
        audio_ch,
        audio_codec,
        keyframes: Vec::new(),
        file_size,
    };
    assert(info@.keyframes =~= Seq::empty());
    Ok(info)
}

/// The streams of a document; none where it has no list of them.
pub open spec fn streams_of(raw: Json) -> Seq<Json> {
    match raw.member("streams"@).items() {
        Some(s) => s,
        None => Seq::empty(),
    }
}

/// Whether `durations` are what a document tells, with what `read` made of its texts.
pub open spec fn durations_read<F: Fn(&str) -> Option<Binary64>>(
    read: F,
    raw: Json,
    durations: Durations,
) -> bool {
    &&& told_of(read, raw.member("format"@), "duration"@, durations.format)
    &&& durations.streams.len() == streams_of(raw).len()
    &&& forall|i: int|
        0 <= i < durations.streams.len() ==> told_of(
            read,
            streams_of(raw)[i],
            "duration"@,
            #[trigger] durations.streams[i],
        )
}

/// The metadata that a document tells of the file `path`. The texts of its durations are handed
/// to `read`, which says what numbers they stand for.
pub fn parse<F: Fn(&str) -> Option<Binary64>>(path: &Path, raw: Value, read: F) -> (r: Result<
    MediaInfo,
    ProbeError,
>)
    requires
        reads_all(read),
    ensures
        exists|durations: Durations| #[trigger]
            durations_read(read, json_of(raw), durations) && probed(
                r,
                metadata_of(owned_path(path), json_of(raw), durations),
            ),
{
    let format: Told = read_told(&read, member(&raw, "format"), "duration");
    let mut streams: Vec<Told> = Vec::new();
    if let Some(items) = member(&raw, "streams").as_array() {
        let ghost all = json_of_all(items@);
        let mut i: usize = 0;
        while i < items.len()
            invariant
                i <= items.len(),
                reads_all(read),
                all == json_of_all(items@),
                streams@.len() == i,
                forall|j: int|
                    0 <= j < streams@.len() ==> told_of(
                        read,
                        all[j],
                        "duration"@,
                        #[trigger] streams@[j],
                    ),
            decreases items.len() - i,
        {
            let d: Told = read_told(&read, &items[i], "duration");
            assert(all[i as int] == json_of(items@[i as int]));
            streams.push(d);
            i = i + 1;
        }
    }
    let ghost durations = Durations { format, streams: streams@ };
    assert(durations_read(read, json_of(raw), durations));
    assemble(path, &raw, format, &streams)
}

// ─── Laws ───

/// Reading the text of a frame rate gives that frame rate back.
pub proof fn lemma_rate_reads_back(f: Fraction)
    requires
        f.valid(),
    ensures
        rate_of(f.text()) == Some(f),
{
    let a = decimal(f.num as nat);
    let b = decimal(f.den as nat);
    reveal_strlit("/");
    lemma_decimal_reads_back(f.num as nat);
    lemma_decimal_reads_back(f.den as nat);
    assert(f.text() =~= a.push('/') + b);
    assert(!a.contains('/')) by {
        assert forall|i: int| 0 <= i < a.len() implies a[i] != '/' by {
            assert(is_digit(a[i]));
        }
    }
    assert(!b.contains('/')) by {
        assert forall|i: int| 0 <= i < b.len() implies b[i] != '/' by {
            assert(is_digit(b[i]));
        }
    }
    lemma_parts_none(a, '/');
    lemma_parts_join(a, '/', b);
    assert(parts(f.text(), '/') =~= seq![a, b]);
    assert(is_digit(a[0]) && is_digit(b[0]));
    assert(unsigned_digits(a) == a && unsigned_digits(b) == b);
}

/// A single stream that tells a positive duration gives it to a container that tells none.
pub proof fn lemma_single_stream(path: PathBuf, format: Told, d: Binary64)
    requires
        !tells_positive(format),
        positive(d),
    ensures
        duration_of(path, Durations { format, streams: seq![Told::Number(d)] }) == Ok::<
            Binary64,
            Failure,
        >(d),
{
    let s = seq![Told::Number(d)];
    assert(s.drop_last() =~= Seq::empty());
    assert(total(s.drop_last()) == (Binary64 { bits: 0 }));
    lemma_sum_of_zero(d);
}

/// One more stream.
proof fn lemma_all_absent(format: Told, streams: Seq<Told>)
    requires
        streams.len() > 0,
    ensures
        all_absent(Durations { format, streams }) <==> streams.last() is Absent && all_absent(
            Durations { format, streams: streams.drop_last() },
        ),
{
    let before = streams.drop_last();
    if all_absent(Durations { format, streams }) {
        assert forall|i: int| 0 <= i < before.len() implies #[trigger] before[i] is Absent by {
            assert(streams[i] is Absent);
        }
    }
    if streams.last() is Absent && all_absent(Durations { format, streams: before }) {
        assert forall|i: int| 0 <= i < streams.len() implies #[trigger] streams[i] is Absent by {
            if i < before.len() {
                assert(before[i] is Absent);
            }
        }
    }
}

/// The sum of the durations of the streams is a number that is not negative. It is positive
/// exactly where one of them is, and then it is at least each that is.
pub proof fn lemma_total(durations: Seq<Told>)
    ensures
        !total(durations).nan(),
        total(durations).value() >= 0,
        positive(total(durations)) <==> exists|i: int|
            0 <= i < durations.len() && tells_positive(#[trigger] durations[i]),
        forall|i: int|
            0 <= i < durations.len() && tells_positive(#[trigger] durations[i])
                ==> durations[i]->Number_0.at_most(total(durations)),
    decreases durations.len(),
{
    if durations.len() == 0 {
        lemma_weight_zero();
    } else {
        let before = durations.drop_last();
        let last = durations.last();
        lemma_total(before);
        if let Told::Number(d) = last {
            if positive(d) {
                lemma_sum_grows(total(before), d);
                assert(tells_positive(durations[durations.len() - 1]));
            }
        }
        assert forall|i: int|
            0 <= i < durations.len() && tells_positive(
                #[trigger] durations[i],
            ) implies durations[i]->Number_0.at_most(total(durations)) by {
            if i < before.len() {
                assert(tells_positive(before[i]));
            }
        }
        if positive(total(before)) {
            let i = choose|i: int| 0 <= i < before.len() && tells_positive(#[trigger] before[i]);
            assert(tells_positive(durations[i]));
        }
    }
}

/// A file has a duration exactly where the container or a stream tells a positive one. Else it is
/// missing where none is told, and invalid, with zero, where one is.
pub proof fn lemma_duration(path: PathBuf, durations: Durations)
    ensures
        duration_of(path, durations) is Ok <==> {
            ||| durations.format matches Told::Number(d) && !d.nan() && d.value() > 0
            ||| exists|i: int|
                0 <= i < durations.streams.len() && {
                    &&& #[trigger] durations.streams[i] is Number
                    &&& !durations.streams[i]->Number_0.nan()
                    &&& durations.streams[i]->Number_0.value() > 0
                }
        },
        duration_of(path, durations) matches Ok(d) ==> !d.nan() && d.value() > 0,
        duration_of(path, durations) is Err ==> duration_of(path, durations)->Err_0 == if {
            &&& durations.format is Absent
            &&& forall|i: int|
                0 <= i < durations.streams.len() ==> #[trigger] durations.streams[i] is Absent
        } {
            Failure::MissingData("duration"@)
        } else {
            Failure::InvalidDuration { path, duration: Binary64 { bits: 0 } }
        },
        all_absent(durations) ==> duration_of(path, durations) is Err,
{
    lemma_total(durations.streams);
    if exists|i: int|
        0 <= i < durations.streams.len() && tells_positive(#[trigger] durations.streams[i]) {
        let i = choose|i: int|
            0 <= i < durations.streams.len() && tells_positive(#[trigger] durations.streams[i]);
        assert(durations.streams[i] is Number);
    }
    if exists|i: int|
        0 <= i < durations.streams.len() && {
            &&& #[trigger] durations.streams[i] is Number
            &&& !durations.streams[i]->Number_0.nan()
            &&& durations.streams[i]->Number_0.value() > 0
        } {
        let i = choose|i: int|
            0 <= i < durations.streams.len() && {
                &&& #[trigger] durations.streams[i] is Number
                &&& !durations.streams[i]->Number_0.nan()
                &&& durations.streams[i]->Number_0.value() > 0
            };
        assert(tells_positive(durations.streams[i]));
    }
}

/// Where the container tells a positive duration, that is the duration of the file, whatever the
/// streams tell.
pub proof fn lemma_container_duration(path: PathBuf, d: Binary64, streams: Seq<Told>)
    requires
        !d.nan(),
        d.value() > 0,
    ensures
        duration_of(path, Durations { format: Told::Number(d), streams }) == Ok::<
            Binary64,
            Failure,
        >(d),
{
}

/// Where the container tells no positive duration, one more stream adds its duration where that
/// is positive, to zero where there was none before, and else changes nothing.
pub proof fn lemma_one_more_stream(path: PathBuf, format: Told, streams: Seq<Told>, more: Told)
    requires
        format matches Told::Number(d) ==> d.nan() || d.value() <= 0,
    ensures
        ({
            let before = duration_of(path, Durations { format, streams });
            let after = duration_of(path, Durations { format, streams: streams.push(more) });
            if more is Number && !more->Number_0.nan() && more->Number_0.value() > 0 {
                after is Ok && is_sum(
                    match before {
                        Ok(d) => d,
                        Err(_) => Binary64 { bits: 0 },
                    },
                    more->Number_0,
                    after->Ok_0,
                )
            } else {
                &&& after is Ok <==> before is Ok
                &&& before is Ok ==> after == before
            }
        }),
        duration_of(path, Durations { format, streams: Seq::empty() }) is Err,
{
    let all = streams.push(more);
    assert(all.drop_last() =~= streams);
    lemma_total(streams);
    lemma_total(all);
    lemma_weight_zero();
    lemma_total(Seq::<Told>::empty());
    if tells_positive(more) {
        let d = more->Number_0;
        lemma_sum_exists(total(streams), d);
        lemma_sum_grows(total(streams), d);
        if !positive(total(streams)) {
            lemma_total_zero(streams);
        }
    }
}

/// A sum that is not positive is the zero that it starts with.
proof fn lemma_total_zero(durations: Seq<Told>)
    requires
        !positive(total(durations)),
    ensures
        total(durations).bits == 0,
    decreases durations.len(),
{
    if durations.len() > 0 {
        let before = durations.drop_last();
        lemma_total(before);
        if tells_positive(durations.last()) {
            lemma_sum_grows(total(before), durations.last()->Number_0);
        }
        lemma_total_zero(before);
    }
}

/// What a document gives: the file that was probed, a positive duration, a frame rate without
/// zeros, all of the audio fields or none, and no keyframes.
pub proof fn lemma_metadata_of(path: PathBuf, raw: Json, durations: Durations)
    requires
        metadata_of(path, raw, durations) is Ok,
    ensures
        ({
            let m = metadata_of(path, raw, durations)->Ok_0;
            &&& m.path == path
            &&& !m.duration.nan() && m.duration.value() > 0
            &&& m.fps.num != 0 && m.fps.den != 0
            &&& m.audio_sr is Some <==> m.audio_ch is Some
            &&& m.audio_sr is Some <==> m.audio_codec is Some
            &&& m.keyframes == Seq::<Binary64>::empty()
        }),
{
    let streams = raw.member("streams"@).items()->0;
    let v = first_stream(streams, "video"@)->0;
    let rate = text_or(v.member("avg_frame_rate"@), "0/1"@);
    lemma_rate_parts(rate);
}

/// A frame rate that was read has no zeros.
proof fn lemma_rate_parts(s: Seq<char>)
    ensures
        rate_of(s) is Some ==> rate_of(s)->0.valid(),
{
}

/// A failure to read a document names the file that was probed, if it names one.
pub proof fn lemma_failure_path(path: PathBuf, raw: Json, durations: Durations)
    requires
        metadata_of(path, raw, durations) is Err,
    ensures
        metadata_of(path, raw, durations)->Err_0.path() is Some ==> metadata_of(
            path,
            raw,
            durations,
        )->Err_0.path() == Some(path),
{
}

/// Whether one of the streams is of the type `kind`.
pub open spec fn has_stream(streams: Seq<Json>, kind: Seq<char>) -> bool {
    exists|i: int|
        0 <= i < streams.len() && (#[trigger] streams[i]).member("codec_type"@).text() == Some(kind)
}

/// A document with a list of streams in which none is a video gives that failure, whatever else
/// it tells, and no other document does.
pub proof fn lemma_no_video(path: PathBuf, raw: Json, durations: Durations)
    ensures
        metadata_of(path, raw, durations) == Err::<Metadata, Failure>(Failure::NoVideoStream(path))
            <==> raw.member("streams"@) is Array && forall|i: int|
            0 <= i < raw.member("streams"@)->Array_0.len() ==> (#[trigger] raw.member(
                "streams"@,
            )->Array_0[i]).member("codec_type"@) != Json::Text("video"@),
        !(raw.member("streams"@) is Array) <==> metadata_of(path, raw, durations) == Err::<
            Metadata,
            Failure,
        >(Failure::MissingData("streams"@)),
{
    reveal_strlit("streams");
    reveal_strlit("video codec_name");
    reveal_strlit("width");
    reveal_strlit("height");
    reveal_strlit("duration");
    if raw.member("streams"@) is Array {
        let streams = raw.member("streams"@)->Array_0;
        assert(streams_of(raw) == streams);
        lemma_first_stream(streams, "video"@);
        assert("video codec_name"@.len() != "streams"@.len());
        assert("width"@.len() != "streams"@.len());
        assert("height"@.len() != "streams"@.len());
        assert("duration"@.len() != "streams"@.len());
        if has_stream(streams, "video"@) {
            let i = choose|i: int|
                0 <= i < streams.len() && (#[trigger] streams[i]).member("codec_type"@).text()
                    == Some("video"@);
            assert(streams[i].member("codec_type"@) == Json::Text("video"@));
        }
    }
}

/// Metadata tells of audio exactly where one of the streams is audio.
pub proof fn lemma_has_audio(path: PathBuf, raw: Json, durations: Durations)
    requires
        metadata_of(path, raw, durations) is Ok,
    ensures
        metadata_of(path, raw, durations)->Ok_0.audio_sr is Some <==> exists|i: int|
            0 <= i < raw.member("streams"@)->Array_0.len() && (#[trigger] raw.member(
                "streams"@,
            )->Array_0[i]).member("codec_type"@) == Json::Text("audio"@),
{
    let streams = raw.member("streams"@)->Array_0;
    assert(streams_of(raw) == streams);
    lemma_first_stream(streams, "audio"@);
    if has_stream(streams, "audio"@) {
        let i = choose|i: int|
            0 <= i < streams.len() && (#[trigger] streams[i]).member("codec_type"@).text() == Some(
                "audio"@,
            );
        assert(streams[i].member("codec_type"@) == Json::Text("audio"@));
    }
    if exists|i: int|
        0 <= i < streams.len() && (#[trigger] streams[i]).member("codec_type"@) == Json::Text(
            "audio"@,
        ) {
        let i = choose|i: int|
            0 <= i < streams.len() && (#[trigger] streams[i]).member("codec_type"@) == Json::Text(
                "audio"@,
            );
        assert(streams[i].member("codec_type"@).text() == Some("audio"@));
    }
}

/// A first stream of a type is found exactly where there is one.
proof fn lemma_first_stream(streams: Seq<Json>, kind: Seq<char>)
    ensures
        first_stream(streams, kind) is Some <==> has_stream(streams, kind),
    decreases streams.len(),
{
    if streams.len() > 0 {
        let rest = streams.drop_first();
        lemma_first_stream(rest, kind);
        if has_stream(rest, kind) {
            let i = choose|i: int|
                0 <= i < rest.len() && (#[trigger] rest[i]).member("codec_type"@).text() == Some(
                    kind,
                );
            assert(streams[i + 1] == rest[i]);
        }
        if has_stream(streams, kind) {
            let i = choose|i: int|
                0 <= i < streams.len() && (#[trigger] streams[i]).member("codec_type"@).text()
                    == Some(kind);
            if i > 0 {
                assert(rest[i - 1] == streams[i]);
            }
        }
    }
}

/// The first stream of a type is the one before which none is of that type.
proof fn lemma_first_stream_at(streams: Seq<Json>, kind: Seq<char>, i: int)
    requires
        0 <= i < streams.len(),
        streams[i].member("codec_type"@) == Json::Text(kind),
        forall|j: int|
            0 <= j < i ==> (#[trigger] streams[j]).member("codec_type"@) != Json::Text(kind),
    ensures
        first_stream(streams, kind) == Some(streams[i]),
    decreases streams.len(),
{
    if i > 0 {
        assert(streams[0].member("codec_type"@) != Json::Text(kind));
        let rest = streams.drop_first();
        assert(rest[i - 1] == streams[i]);
        assert forall|j: int| 0 <= j < i - 1 implies (#[trigger] rest[j]).member("codec_type"@)
            != Json::Text(kind) by {
            assert(rest[j] == streams[j + 1]);
        }
        lemma_first_stream_at(rest, kind, i - 1);
    }
}

/// What the first video stream tells is what metadata holds of the video, and what it lacks is
/// the failure, in this order: the codec, the width, the height, the frame rate, the duration.
pub proof fn lemma_video_fields(path: PathBuf, raw: Json, durations: Durations, i: int)
    requires
        raw.member("streams"@) is Array,
        0 <= i < raw.member("streams"@)->Array_0.len(),
        raw.member("streams"@)->Array_0[i].member("codec_type"@) == Json::Text("video"@),
        forall|j: int|
            0 <= j < i ==> (#[trigger] raw.member("streams"@)->Array_0[j]).member("codec_type"@)
                != Json::Text("video"@),
    ensures
        ({
            let v = raw.member("streams"@)->Array_0[i];
            let codec = v.member("codec_name"@);
            let width = v.member("width"@);
            let height = v.member("height"@);
            let rate = match v.member("avg_frame_rate"@) {
                Json::Text(s) => s,
                _ => "0/1"@,
            };
            let r = metadata_of(path, raw, durations);
            if !(codec is Text) {
                r == Err::<Metadata, Failure>(Failure::MissingData("video codec_name"@))
            } else if !(width is Number && width->Number_0 is Some) {
                r == Err::<Metadata, Failure>(Failure::MissingData("width"@))
            } else if !(height is Number && height->Number_0 is Some) {
                r == Err::<Metadata, Failure>(Failure::MissingData("height"@))
            } else if rate_of(rate) is None {
                r == Err::<Metadata, Failure>(Failure::InvalidFrameRate { path, fps_str: rate })
            } else if duration_of(path, durations) is Err {
                r == Err::<Metadata, Failure>(duration_of(path, durations)->Err_0)
            } else {
                &&& r is Ok
                &&& r->Ok_0.path == path
                &&& codec == Json::Text(r->Ok_0.video_codec)
                &&& r->Ok_0.resolution.0 as int == width->Number_0->0 as int % 0x1_0000_0000
                &&& r->Ok_0.resolution.1 as int == height->Number_0->0 as int % 0x1_0000_0000
                &&& Some(r->Ok_0.fps) == rate_of(rate)
                &&& duration_of(path, durations) == Ok::<Binary64, Failure>(r->Ok_0.duration)
                &&& r->Ok_0.pixel_fmt == match v.member("pix_fmt"@) {
                    Json::Text(s) => s,
                    _ => "yuv420p"@,
                }
                &&& r->Ok_0.keyframes.len() == 0
            }
        }),
{
    lemma_first_stream_at(raw.member("streams"@)->Array_0, "video"@, i);
}

/// What the first audio stream tells is what metadata holds of the audio. What it does not tell
/// is taken to be unknown, 44100 hertz and two channels.
pub proof fn lemma_audio_fields(path: PathBuf, raw: Json, durations: Durations, i: int)
    requires
        metadata_of(path, raw, durations) is Ok,
        0 <= i < raw.member("streams"@)->Array_0.len(),
        raw.member("streams"@)->Array_0[i].member("codec_type"@) == Json::Text("audio"@),
        forall|j: int|
            0 <= j < i ==> (#[trigger] raw.member("streams"@)->Array_0[j]).member("codec_type"@)
                != Json::Text("audio"@),
    ensures
        ({
            let a = raw.member("streams"@)->Array_0[i];
            let m = metadata_of(path, raw, durations)->Ok_0;
            let rate = a.member("sample_rate"@);
            let channels = a.member("channels"@);
            &&& m.audio_codec == Some(
                match a.member("codec_name"@) {
                    Json::Text(s) => s,
                    _ => "unknown"@,
                },
            )
            &&& m.audio_sr is Some
            &&& m.audio_sr->0 as nat == if rate is Text && unsigned(
                rate->Text_0,
                u32::MAX as nat,
            ) is Some {
                unsigned(rate->Text_0, u32::MAX as nat)->0
            } else {
                44100
            }
            &&& m.audio_ch is Some
            &&& m.audio_ch->0 as int == if channels is Number && channels->Number_0 is Some
                && channels->Number_0->0 < 256 {
                channels->Number_0->0 as int
            } else {
                2
            }
        }),
{
    lemma_first_stream_at(raw.member("streams"@)->Array_0, "audio"@, i);
}

/// Without an audio stream there are no audio fields, and the size is the integer that the
/// container tells, or zero.
pub proof fn lemma_other_fields(path: PathBuf, raw: Json, durations: Durations)
    requires
        metadata_of(path, raw, durations) is Ok,
    ensures
        ({
            let m = metadata_of(path, raw, durations)->Ok_0;
            let size = raw.member("format"@).member("size"@);
            &&& m.audio_sr is None ==> m.audio_ch is None && m.audio_codec is None
            &&& m.file_size as nat == if size is Text && unsigned(
                size->Text_0,
                u64::MAX as nat,
            ) is Some {
                unsigned(size->Text_0, u64::MAX as nat)->0
            } else {
                0
            }
        }),
{
}

/// The frame rate of a text: both sides of its only slash, or all of it over one, where they are
/// integers of 32 bits that are not zero. No other text is a frame rate.
pub proof fn lemma_rate_of(a: Seq<char>, b: Seq<char>, c: Seq<char>)
    requires
        !a.contains('/'),
        !b.contains('/'),
        !c.contains('/'),
    ensures
        rate_of(a.push('/') + b) == match (
            unsigned(a, u32::MAX as nat),
            unsigned(b, u32::MAX as nat),
        ) {
            (Some(n), Some(d)) => if n != 0 && d != 0 {
                Some(Fraction { num: n as u32, den: d as u32 })
            } else {
                None
            },
            _ => None,
        },
        rate_of(a) == match unsigned(a, u32::MAX as nat) {
            Some(n) => if n != 0 {
                Some(Fraction { num: n as u32, den: 1 })
            } else {
                None
            },
            None => None,
        },
        forall|s: Seq<char>| (#[trigger] rate_of((s.push('/') + b).push('/') + c)) is None,
{
    lemma_parts_none(a, '/');
    lemma_parts_join(a, '/', b);
    assert(parts(a.push('/') + b, '/') =~= seq![a, b]);
    assert forall|s: Seq<char>| (#[trigger] rate_of((s.push('/') + b).push('/') + c)) is None by {
        lemma_parts_some(s, '/');
        lemma_parts_join(s, '/', b);
        lemma_parts_join(s.push('/') + b, '/', c);
    }
}

/// The whole number of a text is its frame rate.
pub proof fn lemma_whole_rate_reads_back(n: u32)
    requires
        n != 0,
    ensures
        rate_of(decimal(n as nat)) == Some(Fraction { num: n, den: 1 }),
{
    let a = decimal(n as nat);
    lemma_decimal_reads_back(n as nat);
    assert(!a.contains('/')) by {
        assert forall|i: int| 0 <= i < a.len() implies a[i] != '/' by {
            assert(is_digit(a[i]));
        }
    }
    assert(is_digit(a[0]));
    assert(unsigned_digits(a) == a);
    lemma_parts_none(a, '/');
}

/// A probe that came out with metadata came out with all of it, and one that came out with a
/// failure came out with that failure.
pub proof fn lemma_probed(r: Result<MediaInfo, ProbeError>, expected: Result<Metadata, Failure>)
    requires
        probed(r, expected),
    ensures
        r is Ok <==> expected is Ok,
        r matches Ok(info) ==> info@ == expected->Ok_0,
        r matches Err(e) ==> e@ == expected->Err_0,
{
}

/// The durations of a document are those of its container and of its streams, one for each.
pub proof fn lemma_durations_read<F: Fn(&str) -> Option<Binary64>>(
    read: F,
    raw: Json,
    durations: Durations,
)
    requires
        durations_read(read, raw, durations),
    ensures
        told_of(read, raw.member("format"@), "duration"@, durations.format),
        raw.member("streams"@) matches Json::Array(streams) ==> durations.streams.len()
            == streams.len() && forall|i: int|
            0 <= i < streams.len() ==> told_of(
                read,
                #[trigger] streams[i],
                "duration"@,
                durations.streams[i],
            ),
{
    if let Json::Array(streams) = raw.member("streams"@) {
        assert(streams_of(raw) == streams);
        assert forall|i: int| 0 <= i < streams.len() implies told_of(
            read,
            #[trigger] streams[i],
            "duration"@,
            durations.streams[i],
        ) by {
            assert(durations.streams[i] == durations.streams[i]);
        }
    }
}

/// A document whose container tells the duration by a text that reads as a positive number, and
/// as no other, gives metadata with that duration.
pub proof fn lemma_parsed_duration<F: Fn(&str) -> Option<Binary64>>(
    path: PathBuf,
    raw: Json,
    read: F,
    durations: Durations,
    r: Result<MediaInfo, ProbeError>,
    text: Seq<char>,
    d: Binary64,
)
    requires
        durations_read(read, raw, durations),
        probed(r, metadata_of(path, raw, durations)),
        raw.member("format"@).member("duration"@) == Json::Text(text),
        forall|t: &str, answer: Option<Binary64>|
            t@ == text && #[trigger] call_ensures(read, (t,), answer) ==> answer == Some(d),
        !d.nan(),
        d.value() > 0,
        r is Ok,
    ensures
        r->Ok_0.duration == d,
{
}

/// What is read of a stream is known by all of its fields.
pub proof fn lemma_stream_views(v: VideoStream, a: AudioStream)
    ensures
        v@.codec_name == v.codec_name@,
        v@.width == v.width,
        v@.height == v.height,
        v@.fps == v.fps,
        v@.pix_fmt == v.pix_fmt@,
        a@.codec_name == a.codec_name@,
        a@.sample_rate == a.sample_rate,
        a@.channels == a.channels,
{
}

/// The stream functions on their own give what they give to metadata.
pub proof fn lemma_streams_alone(path: PathBuf, raw: Json, durations: Durations)
    requires
        metadata_of(path, raw, durations) is Ok,
    ensures
        ({
            let streams = raw.member("streams"@)->Array_0;
            let m = metadata_of(path, raw, durations)->Ok_0;
            let video = video_of(path, streams);
            let audio = audio_of(streams);
            &&& video is Ok
            &&& video->Ok_0.codec_name == m.video_codec
            &&& (video->Ok_0.width, video->Ok_0.height) == m.resolution
            &&& video->Ok_0.fps == m.fps
            &&& video->Ok_0.pix_fmt == m.pixel_fmt
            &&& audio is Some <==> m.audio_sr is Some
            &&& audio matches Some(a) ==> m.audio_sr == Some(a.sample_rate) && m.audio_ch == Some(
                a.channels,
            ) && m.audio_codec == Some(a.codec_name)
            &&& size_of_file(raw.member("format"@)) == m.file_size
        }),
{
}

/// The first audio stream is read where there is one, whatever else there is: its codec, or
/// unknown, its sample rate, or 44100 hertz, and its channels, or two.
pub proof fn lemma_audio_of(streams: Seq<Json>, i: int)
    ensures
        (forall|j: int|
            0 <= j < streams.len() ==> (#[trigger] streams[j]).member("codec_type"@) != Json::Text(
                "audio"@,
            )) ==> audio_of(streams) is None,
        0 <= i < streams.len() && streams[i].member("codec_type"@) == Json::Text("audio"@) && (
        forall|j: int|
            0 <= j < i ==> (#[trigger] streams[j]).member("codec_type"@) != Json::Text("audio"@))
            ==> {
            let a = streams[i];
            let rate = a.member("sample_rate"@);
            let channels = a.member("channels"@);
            &&& audio_of(streams) is Some
            &&& a.member("codec_name"@) is Text ==> Json::Text(audio_of(streams)->0.codec_name)
                == a.member("codec_name"@)
            &&& !(a.member("codec_name"@) is Text) ==> audio_of(streams)->0.codec_name
                == "unknown"@
            &&& audio_of(streams)->0.sample_rate as nat == if rate is Text && unsigned(
                rate->Text_0,
                u32::MAX as nat,
            ) is Some {
                unsigned(rate->Text_0, u32::MAX as nat)->0
            } else {
                44100
            }
            &&& audio_of(streams)->0.channels as int == if channels is Number
                && channels->Number_0 is Some && channels->Number_0->0 < 256 {
                channels->Number_0->0 as int
            } else {
                2
            }
        },
{
    lemma_first_stream(streams, "audio"@);
    if has_stream(streams, "audio"@) {
        let n = choose|n: int|
            0 <= n < streams.len() && (#[trigger] streams[n]).member("codec_type"@).text() == Some(
                "audio"@,
            );
        assert(streams[n].member("codec_type"@) == Json::Text("audio"@));
    }
    if 0 <= i < streams.len() && streams[i].member("codec_type"@) == Json::Text("audio"@) && (
    forall|j: int|
        0 <= j < i ==> (#[trigger] streams[j]).member("codec_type"@) != Json::Text("audio"@)) {
        lemma_first_stream_at(streams, "audio"@, i);
    }
}

/// The size is the integer that a container tells as text, where it is one of 64 bits, and else
/// zero.
pub proof fn lemma_size_of_file(format: Json)
    ensures
        format.member("size"@) is Text ==> size_of_file(format) as nat == match unsigned(
            format.member("size"@)->Text_0,
            u64::MAX as nat,
        ) {
            Some(n) => n,
            None => 0,
        },
        !(format.member("size"@) is Text) ==> size_of_file(format) == 0,
{
}

/// What stands for a text is the text, and the other where there is none.
pub proof fn lemma_text_or(v: Json, s: Seq<char>, default: Seq<char>)
    ensures
        text_or(Json::Text(s), default) == s,
        !(v is Text) ==> text_or(v, default) == default,
{
}

} // verus!
