use media_probe::binary64::Binary64;
use media_probe::cache::ProbeCache;
use media_probe::error::ProbeError;
use media_probe::ffprobe::Outcome;
use media_probe::media_info::{Fraction, MediaInfo};
use media_probe::probe::{advance, collect, Event, ProbeState};
use std::path::PathBuf;

fn read(s: &str) -> Option<Binary64> {
    s.parse::<f64>().ok().map(|x| Binary64::from_bits(x.to_bits()))
}

const STREAMS: &str = r#"{
    "streams": [{
        "codec_type": "video", "codec_name": "h264", "width": 1280, "height": 720,
        "avg_frame_rate": "24/1", "pix_fmt": "yuv420p"
    }],
    "format": {"duration": "5.0", "size": "99"}
}"#;

const PACKETS: &str = r#"{"packets": [{"pts_time": "2.5", "flags": "K_"}, {"pts_time": "0", "flags": "K_"}]}"#;

fn wrote(text: &str) -> Outcome {
    Outcome::Exited {
        success: true,
        stdout: text.as_bytes().to_vec(),
        stderr: vec![],
    }
}

/// Runs a probe to its end, and tells which processes it spawned.
fn drive(
    path: &PathBuf,
    cache: &mut ProbeCache,
    exists: bool,
    mut outputs: Vec<Outcome>,
) -> (Result<MediaInfo, ProbeError>, usize) {
    let mut state = ProbeState::LookUp;
    let mut spawned = 0;
    loop {
        let event = match &state {
            ProbeState::LookUp => Event::CacheAnswered(cache.get(path, None)),
            ProbeState::CheckFile => Event::FileChecked(exists),
            ProbeState::ProbeStreams(i) => {
                assert!(i.args.contains(&"-show_streams"));
                assert_eq!(&i.file, path);
                spawned += 1;
                Event::ProcessEnded(outputs.remove(0))
            }
            ProbeState::ProbeKeyframes(_, i) => {
                assert!(i.args.contains(&"nokey"));
                assert_eq!(&i.file, path);
                spawned += 1;
                Event::ProcessEnded(outputs.remove(0))
            }
            ProbeState::Store(info) => {
                cache.insert(path, info.clone(), None);
                Event::Stored
            }
            ProbeState::Done(_) => break,
        };
        state = advance(path, state, event, read);
    }
    match state {
        ProbeState::Done(result) => (result, spawned),
        _ => unreachable!(),
    }
}

#[test]
fn probe_nonexistent_file_returns_invalid_file_error() {
    let path = PathBuf::from("/absolutely/does/not/exist.mp4");
    let mut cache = ProbeCache::new();
    let (result, spawned) = drive(&path, &mut cache, path.exists(), vec![]);
    assert!(matches!(result, Err(ProbeError::InvalidFile(_))));
    assert_eq!(spawned, 0);
    assert!(cache.is_empty());
}

#[test]
fn cache_is_populated_after_miss() {
    let mut cache = ProbeCache::new();
    let path = PathBuf::from("/nonexistent/test.mp4");
    assert!(!cache.contains(&path, None));

    let (result, spawned) = drive(&path, &mut cache, true, vec![wrote(STREAMS), wrote(PACKETS)]);
    let info = result.unwrap();
    assert_eq!(spawned, 2);
    assert_eq!(info.path, path);
    assert_eq!(info.resolution, (1280, 720));
    assert_eq!(info.file_size, 99);
    let times: Vec<f64> = info.keyframes.iter().map(|k| f64::from_bits(k.bits)).collect();
    assert_eq!(times, [0.0, 2.5]);
    assert!(cache.contains(&path, None));

    let (again, spawned) = drive(&path, &mut cache, true, vec![]);
    assert_eq!(spawned, 0);
    assert_eq!(format!("{:?}", again.unwrap()), format!("{info:?}"));
}

#[test]
fn a_file_that_fails_the_checks_is_not_kept() {
    let path = PathBuf::from("/media/x.mp4");
    let mut cache = ProbeCache::new();
    let odd = STREAMS.replace("h264", "rv40");
    let (result, spawned) = drive(&path, &mut cache, true, vec![wrote(&odd)]);
    assert!(matches!(result, Err(ProbeError::UnsupportedFormat { .. })));
    assert_eq!(spawned, 1);
    assert!(cache.is_empty());
    let (result, _) = drive(&path, &mut cache, true, vec![wrote("{}")]);
    assert!(matches!(result, Err(ProbeError::MissingData("streams"))));
    let (result, _) = drive(&path, &mut cache, true, vec![wrote("oops")]);
    assert!(matches!(result, Err(ProbeError::JsonParse(_))));
    let (result, _) =
        drive(&path, &mut cache, true, vec![Outcome::NotSpawned("gone".to_string())]);
    assert!(matches!(result, Err(ProbeError::Execution(_))));
    assert!(cache.is_empty());
}

#[test]
fn keyframes_are_a_best_effort() {
    let path = PathBuf::from("/media/x.mp4");
    let mut cache = ProbeCache::new();
    let outputs = vec![wrote(STREAMS), Outcome::NotSpawned("gone".to_string())];
    let (result, spawned) = drive(&path, &mut cache, true, outputs);
    assert!(result.unwrap().keyframes.is_empty());
    assert_eq!(spawned, 2);
    assert_eq!(cache.len(), 1);
}

#[test]
fn an_event_out_of_turn_changes_nothing() {
    let path = PathBuf::from("/media/x.mp4");
    let state = advance(&path, ProbeState::LookUp, Event::Stored, read);
    assert!(matches!(state, ProbeState::LookUp));
    let state = advance(&path, ProbeState::CheckFile, Event::CacheAnswered(None), read);
    assert!(matches!(state, ProbeState::CheckFile));
}

fn info(path: &str, file_size: u64) -> MediaInfo {
    MediaInfo {
        path: PathBuf::from(path),
        duration: Binary64::from_bits(1.0f64.to_bits()),
        fps: Fraction::new(30, 1),
        resolution: (10, 10),
        video_codec: "h264".to_string(),
        pixel_fmt: "yuv420p".to_string(),
        audio_sr: None,
        audio_ch: None,
        audio_codec: None,
        keyframes: vec![],
        file_size,
    }
}

#[test]
fn results_are_collected_by_path() {
    let paths = vec![PathBuf::from("/a"), PathBuf::from("/b"), PathBuf::from("/a")];
    let map = collect(&paths, vec![info("/a", 1), info("/b", 2), info("/a", 3)]);
    assert_eq!(map.len(), 2);
    for path in &paths {
        assert!(map.get(path).is_some());
    }
    assert_eq!(map.get(&paths[0]).unwrap().file_size, 3);
    assert_eq!(map.get(&paths[1]).unwrap().file_size, 2);
    assert!(map.get(&PathBuf::from("/c")).is_none());
    let map = collect(&paths, vec![info("/a", 1)]);
    assert_eq!(map.len(), 1);
    assert!(collect(&vec![], vec![]).is_empty());
}
