use media_probe::binary64::Binary64;
use media_probe::error::ProbeError;
use media_probe::ffprobe::{
    keyframe_invocation, keyframes_of, run, run_keyframe_pass, stream_invocation, Outcome,
};
use std::path::PathBuf;

fn read(s: &str) -> Option<Binary64> {
    s.parse::<f64>().ok().map(|x| Binary64::from_bits(x.to_bits()))
}

fn values(xs: &Vec<Binary64>) -> Vec<f64> {
    xs.iter().map(|x| f64::from_bits(x.bits)).collect()
}

fn exited(success: bool, stdout: &str, stderr: &[u8]) -> Outcome {
    Outcome::Exited {
        success,
        stdout: stdout.as_bytes().to_vec(),
        stderr: stderr.to_vec(),
    }
}

#[test]
fn run_returns_invalid_file_for_nonexistent_path() {
    let path = PathBuf::from("/tmp/this_file_does_not_exist_videngine.mp4");
    let result = stream_invocation(&path, path.exists());
    assert!(matches!(result, Err(ProbeError::InvalidFile(_))));
}

#[test]
fn invocations() {
    let path = PathBuf::from("/tmp/x.mp4");
    let i = match stream_invocation(&path, true) {
        Ok(i) => i,
        Err(e) => panic!("{e:?}"),
    };
    assert_eq!(i.program, "ffprobe");
    assert_eq!(i.args, ["-v", "quiet", "-print_format", "json", "-show_streams", "-show_format"]);
    assert_eq!(i.file, path);
    let i = keyframe_invocation(&path);
    assert_eq!(i.program, "ffprobe");
    assert_eq!(
        i.args,
        [
            "-v", "quiet", "-print_format", "json", "-select_streams", "v:0", "-show_entries",
            "packet=pts_time,flags", "-skip_frame", "nokey"
        ]
    );
    assert_eq!(i.file, path);
}

fn execution(e: ProbeError) -> String {
    assert!(e.is_transient());
    assert_eq!(e.path(), None);
    match e {
        ProbeError::Execution(s) => s,
        other => panic!("{other:?}"),
    }
}

#[test]
fn a_failed_run_says_why() {
    let e = run(Outcome::NotSpawned("not found".to_string())).unwrap_err();
    assert_eq!(execution(e), "failed to spawn ffprobe: not found");
    let e = run(exited(false, "{}", b"bad \xFF file")).unwrap_err();
    assert_eq!(execution(e), "bad \u{FFFD} file");
    let e = run(exited(false, "", b"no such file\n")).unwrap_err();
    assert_eq!(execution(e), "no such file\n");
    let e = run(exited(false, "{}", b"")).unwrap_err();
    assert_eq!(execution(e), "");
}

#[test]
fn output_must_be_json() {
    let e = run(exited(true, "{", b"")).unwrap_err();
    assert!(matches!(e, ProbeError::JsonParse(_)));
    assert!(!e.is_transient());
    assert_eq!(e.path(), None);
    let v = run(exited(true, r#"{"streams": []}"#, b"")).unwrap();
    assert_eq!(v, serde_json::from_str::<serde_json::Value>(r#"{"streams": []}"#).unwrap());
}

#[test]
fn the_error_is_that_of_the_output() {
    for text in ["{", "", "[1,", "{\n  \"streams\": tru }", "null null"] {
        let expected = serde_json::from_slice::<serde_json::Value>(text.as_bytes()).unwrap_err();
        match run(exited(true, text, b"{\"a\": }")) {
            Err(ProbeError::JsonParse(e)) => {
                assert_eq!(e.to_string(), expected.to_string());
                assert_eq!((e.line(), e.column()), (expected.line(), expected.column()));
            }
            other => panic!("{text}: {other:?}"),
        }
    }
}

const PACKETS: &str = r#"{"packets": [
    {"pts_time": "4.000000", "flags": "K__"},
    {"pts_time": "0.000000", "flags": "K_"},
    {"pts_time": "1.000000", "flags": "__"},
    {"pts_time": "1.500000"},
    {"pts_time": "N/A", "flags": "K"},
    {"pts_time": 3, "flags": "K"},
    {"flags": "K"},
    {"pts_time": "4.000500", "flags": "_K"},
    {"pts_time": "2.0", "flags": "K"}
]}"#;

#[test]
fn keyframes_are_those_that_are_flagged() {
    let v = run_keyframe_pass(exited(true, PACKETS, b""), read).unwrap();
    assert_eq!(values(&v), [0.0, 2.0, 4.0]);
    let v = keyframes_of(&serde_json::from_str(PACKETS).unwrap(), read);
    assert_eq!(values(&v), [0.0, 2.0, 4.0]);
}

#[test]
fn a_failed_keyframe_pass_finds_none() {
    assert!(run_keyframe_pass(exited(false, PACKETS, b""), read).unwrap().is_empty());
    for text in ["", "{", "null", "{}", r#"{"packets": {}}"#] {
        assert!(run_keyframe_pass(exited(true, text, b""), read).unwrap().is_empty());
    }
    let e = run_keyframe_pass(Outcome::NotSpawned("no".to_string()), read).unwrap_err();
    assert_eq!(execution(e), "keyframe pass failed to spawn: no");
}

#[test]
fn errors_of_other_crates_are_wrapped() {
    let e: ProbeError = serde_json::from_str::<serde_json::Value>("{").unwrap_err().into();
    assert!(matches!(e, ProbeError::JsonParse(_)));
    let e: ProbeError = std::io::Error::new(std::io::ErrorKind::Other, "x").into();
    assert!(matches!(e, ProbeError::Io(_)));
    assert!(e.is_transient());
}
