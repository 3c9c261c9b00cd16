//! The ffprobe process: how it is invoked, and what its outcome means.
use crate::binary64::Binary64;
use crate::error::{Failure, ProbeError};
use crate::json::{
    json_document, json_of, json_of_all, member, read_document, refused, text_member, Json,
};
use crate::keyframes::{
    arrange, arranged, close, lemma_sorted_permutes, lemma_spaced_covers, lemma_spaced_from,
    lemma_told, sorted, told,
};
use crate::parser::text_or;
use crate::paths::owned_path;
use crate::reading::{answered_of, read_member, reads_all};
use crate::text::{bytes_text, has_char, text_of_bytes};
use serde_json::Value;
use std::path::{Path, PathBuf};
use vstd::prelude::*;
use vstd::seq_lib::group_to_multiset_ensures;

verus! {

// ─── Invocations ───

/// How a process is to be invoked: the program, its arguments, and the file as the last one.
#[derive(Debug)]
pub struct Invocation {
    pub program: &'static str,
    pub args: Vec<&'static str>,
    pub file: PathBuf,
}

/// How a process came out.
#[derive(Debug)]
pub enum Outcome {
    /// It could not be spawned; with the reason.
    NotSpawned(String),
    /// It ran.
    Exited {
        /// Whether its exit status tells success.
        success: bool,
        /// What it wrote to its output.
        stdout: Vec<u8>,
        /// What it wrote to its error output.
        stderr: Vec<u8>,
    },
}

/// The arguments that ask for the streams and the container, as JSON.
pub open spec fn stream_arguments() -> Seq<Seq<char>> {
    seq![
        "-v"@,
        "quiet"@,
        "-print_format"@,
        "json"@,
        "-show_streams"@,
        "-show_format"@,
    ]
}

/// The arguments that ask for the packets of the first video stream, as JSON.
pub open spec fn keyframe_arguments() -> Seq<Seq<char>> {
    seq![
        "-v"@,
        "quiet"@,
        "-print_format"@,
        "json"@,
        "-select_streams"@,
        "v:0"@,
        "-show_entries"@,
        "packet=pts_time,flags"@,
        "-skip_frame"@,
        "nokey"@,
    ]
}

impl Invocation {
    /// Whether this invokes ffprobe with these arguments on this file.
    pub open spec fn invokes(&self, args: Seq<Seq<char>>, file: PathBuf) -> bool {
        &&& self.program@ == "ffprobe"@
        &&& self.args@.map_values(|s: &'static str| s@) == args
        &&& self.file == file
    }
}

/// How to ask for the streams of the file `path`, which must exist.
pub fn stream_invocation(path: &Path, exists: bool) -> (r: Result<Invocation, ProbeError>)
    ensures
        match r {
            Ok(i) => exists && i.invokes(stream_arguments(), owned_path(path)),
            Err(e) => !exists && e@ == Failure::InvalidFile(owned_path(path)),
        },
{
    if !exists {
        return Err(ProbeError::InvalidFile(path.to_path_buf()));
    }
    let args: Vec<&'static str> =
        vec!["-v", "quiet", "-print_format", "json", "-show_streams", "-show_format"];
    assert(args@.map_values(|s: &'static str| s@) =~= stream_arguments());
    Ok(Invocation { program: "ffprobe", args, file: path.to_path_buf() })
}

/// How to ask for the keyframes of the file `path`.
pub fn keyframe_invocation(path: &Path) -> (r: Invocation)
    ensures
        r.invokes(keyframe_arguments(), owned_path(path)),
{
    let args: Vec<&'static str> = vec![
        "-v",
        "quiet",
        "-print_format",
        "json",
        "-select_streams",
        "v:0",
        "-show_entries",
        "packet=pts_time,flags",
        "-skip_frame",
        "nokey",
    ];
    assert(args@.map_values(|s: &'static str| s@) =~= keyframe_arguments());
    Invocation { program: "ffprobe", args, file: path.to_path_buf() }
}

// ─── Streams ───

/// Whether a run came out with the document that ffprobe wrote, or with the failure that the
/// outcome stands for.
pub open spec fn document_read(outcome: Outcome, r: Result<Value, ProbeError>) -> bool {
    match outcome {
        Outcome::NotSpawned(reason) => r is Err && r->Err_0@ == Failure::Execution(
            "failed to spawn ffprobe: "@ + reason@,
        ),
        Outcome::Exited { success, stdout, stderr } => if !success {
            r is Err && r->Err_0@ == Failure::Execution(bytes_text(stderr@))
        } else {
            match json_document(stdout@) {
                Some(j) => r is Ok && json_of(r->Ok_0) == j,
                None => r is Err && r->Err_0 is JsonParse && refused(
                    stdout@,
                    r->Err_0->JsonParse_0,
                ),
            }
        },
    }
}

/// `a` followed by `b`.
fn joined(a: &str, b: &str) -> (r: String)
    ensures
        r@ == a@ + b@,
{
    let mut r: String = a.to_string();
    r.append(b);
    r
}

/// The document that ffprobe wrote.
pub fn run(outcome: Outcome) -> (r: Result<Value, ProbeError>)
    ensures
        document_read(outcome, r),
{
    match outcome {
        Outcome::NotSpawned(reason) => Err(
            ProbeError::Execution(joined("failed to spawn ffprobe: ", reason.as_str())),
        ),
        Outcome::Exited { success, stdout, stderr } => {
            if !success {
                return Err(ProbeError::Execution(text_of_bytes(stderr.as_slice())));
            }
            match read_document(stdout.as_slice()) {
                Ok(v) => Ok(v),
                Err(e) => Err(ProbeError::from(e)),
            }
        },
    }
}

// ─── Keyframes ───

/// Whether a packet is flagged as a keyframe.
pub open spec fn is_keyframe(packet: Json) -> bool {
    text_or(packet.member("flags"@), Seq::empty()).contains('K')
}

/// The packets of a document that are flagged as keyframes, in order.
pub open spec fn keyframe_packets(raw: Json) -> Seq<Json> {
    match raw.member("packets"@).items() {
        Some(packets) => packets.filter(|p: Json| is_keyframe(p)),
        None => Seq::empty(),
    }
}

/// Whether `readings` are what `read` made of the times of the keyframe packets.
pub open spec fn keyframes_read<F: Fn(&str) -> Option<Binary64>>(
    read: F,
    raw: Json,
    readings: Seq<Option<Binary64>>,
) -> bool {
    let packets = keyframe_packets(raw);
    &&& readings.len() == packets.len()
    &&& forall|i: int|
        0 <= i < readings.len() ==> answered_of(
            read,
            packets[i].member("pts_time"@),
            #[trigger] readings[i],
        )
}

/// Whether a packet is flagged as a keyframe.
fn is_keyframe_packet(packet: &Value) -> (r: bool)
    ensures
        r == is_keyframe(json_of(*packet)),
{
    match text_member(packet, "flags") {
        Some(s) => has_char(s, 'K'),
        None => false,
    }
}

/// The keyframes that a document tells. The texts of their times are handed to `read`.
pub fn keyframes_of<F: Fn(&str) -> Option<Binary64>>(raw: &Value, read: F) -> (r: Vec<Binary64>)
    requires
        reads_all(read),
    ensures
        exists|readings: Seq<Option<Binary64>>| #[trigger]
            keyframes_read(read, json_of(*raw), readings) && r@ == arranged(readings),
{
    let mut readings: Vec<Option<Binary64>> = Vec::new();
    let ghost flagged = |p: Json| is_keyframe(p);
    if let Some(items) = member(raw, "packets").as_array() {
        let ghost all = json_of_all(items@);
        let ghost mut packets: Seq<Json> = Seq::empty();
        let mut i: usize = 0;
        proof {
            assert(all.take(0) =~= Seq::empty());
            reveal(Seq::filter);
        }
        while i < items.len()
            invariant
                i <= items.len(),
                reads_all(read),
                all == json_of_all(items@),
                flagged == (|p: Json| is_keyframe(p)),
                packets == all.take(i as int).filter(flagged),
                readings@.len() == packets.len(),
                forall|j: int|
                    0 <= j < readings@.len() ==> answered_of(
                        read,
                        packets[j].member("pts_time"@),
                        #[trigger] readings@[j],
                    ),
            decreases items.len() - i,
        {
            proof {
                reveal(Seq::filter);
                assert(all.take(i + 1).drop_last() =~= all.take(i as int));
                assert(all[i as int] == json_of(items@[i as int]));
            }
            if is_keyframe_packet(&items[i]) {
                let t: Option<Binary64> = read_member(&read, &items[i], "pts_time");
                readings.push(t);
                proof {
                    packets = packets.push(all[i as int]);
                }
            }
            i = i + 1;
        }
        assert(all.take(i as int) =~= all);
    }
    assert(keyframes_read(read, json_of(*raw), readings@));
    arrange(&readings)
}

/// The document that a keyframe pass wrote; null where it is none.
pub open spec fn keyframe_document(stdout: Seq<u8>) -> Json {
    match json_document(stdout) {
        Some(j) => j,
        None => Json::Null,
    }
}

/// Whether a keyframe pass came out as it must: none where ffprobe failed, and else those that it
/// wrote.
pub open spec fn keyframes_found<F: Fn(&str) -> Option<Binary64>>(
    outcome: Outcome,
    read: F,
    r: Result<Vec<Binary64>, ProbeError>,
) -> bool {
    match outcome {
        Outcome::NotSpawned(reason) => r is Err && r->Err_0@ == Failure::Execution(
            "keyframe pass failed to spawn: "@ + reason@,
        ),
        Outcome::Exited { success, stdout, .. } => if !success {
            r is Ok && r->Ok_0@ == Seq::<Binary64>::empty()
        } else {
            r is Ok && exists|readings: Seq<Option<Binary64>>| #[trigger]
                keyframes_read(read, keyframe_document(stdout@), readings) && r->Ok_0@ == arranged(
                    readings,
                )
        },
    }
}

/// The keyframes that a keyframe pass found. A pass that failed, or that wrote no JSON, found
/// none.
pub fn run_keyframe_pass<F: Fn(&str) -> Option<Binary64>>(outcome: Outcome, read: F) -> (r: Result<
    Vec<Binary64>,
    ProbeError,
>)
    requires
        reads_all(read),
    ensures
        keyframes_found(outcome, read, r),
{
    match outcome {
        Outcome::NotSpawned(reason) => Err(
            ProbeError::Execution(joined("keyframe pass failed to spawn: ", reason.as_str())),
        ),
        Outcome::Exited { success, stdout, .. } => {
            if !success {
                return Ok(Vec::new());
            }
            match read_document(stdout.as_slice()) {
                Ok(v) => Ok(keyframes_of(&v, read)),
                Err(_) => {
                    let r: Vec<Binary64> = Vec::new();
                    assert(arranged(Seq::empty()) =~= Seq::empty());
                    assert(keyframes_read(read, Json::Null, Seq::empty()));
                    Ok(r)
                },
            }
        },
    }
}

// ─── Laws ───

/// An invocation of ffprobe names the program, the arguments in their order, and the file.
pub proof fn lemma_invokes(i: Invocation, args: Seq<Seq<char>>, file: PathBuf)
    requires
        i.invokes(args, file),
    ensures
        i.program@ == "ffprobe"@,
        i.args@.len() == args.len(),
        forall|n: int| 0 <= n < args.len() ==> (#[trigger] i.args@[n])@ == args[n],
        i.file == file,
{
    let texts = i.args@.map_values(|s: &'static str| s@);
    assert forall|n: int| 0 <= n < args.len() implies (#[trigger] i.args@[n])@ == args[n] by {
        assert(texts[n] == i.args@[n]@);
    }
}

/// The streams are asked for as JSON, with the container, and nothing else is.
pub proof fn lemma_stream_arguments()
    ensures
        stream_arguments().len() == 6,
        stream_arguments()[0] == "-v"@,
        stream_arguments()[1] == "quiet"@,
        stream_arguments()[2] == "-print_format"@,
        stream_arguments()[3] == "json"@,
        stream_arguments()[4] == "-show_streams"@,
        stream_arguments()[5] == "-show_format"@,
{
}

/// The packets of the first video stream are asked for as JSON, with their times and flags.
pub proof fn lemma_keyframe_arguments()
    ensures
        keyframe_arguments().len() == 10,
        keyframe_arguments()[0] == "-v"@,
        keyframe_arguments()[1] == "quiet"@,
        keyframe_arguments()[2] == "-print_format"@,
        keyframe_arguments()[3] == "json"@,
        keyframe_arguments()[4] == "-select_streams"@,
        keyframe_arguments()[5] == "v:0"@,
        keyframe_arguments()[6] == "-show_entries"@,
        keyframe_arguments()[7] == "packet=pts_time,flags"@,
        keyframe_arguments()[8] == "-skip_frame"@,
        keyframe_arguments()[9] == "nokey"@,
{
}

/// A run gives the document that was written, exactly where ffprobe succeeded and wrote one.
/// A process that failed gives what it wrote to its error output, whatever it wrote to its
/// output, and one that was not spawned gives the reason.
pub proof fn lemma_document_read(outcome: Outcome, r: Result<Value, ProbeError>)
    requires
        document_read(outcome, r),
    ensures
        outcome matches Outcome::NotSpawned(reason) ==> r is Err && r->Err_0@
            == Failure::Execution("failed to spawn ffprobe: "@ + reason@),
        outcome matches Outcome::Exited { success, stdout, stderr } ==> {
            &&& !success ==> r is Err && r->Err_0@ == Failure::Execution(bytes_text(stderr@))
            &&& success ==> (r is Ok <==> json_document(stdout@) is Some)
            &&& success && r is Ok ==> json_document(stdout@) == Some(json_of(r->Ok_0))
            &&& success && r is Err ==> r->Err_0 is JsonParse && refused(
                stdout@,
                r->Err_0->JsonParse_0,
            )
        },
{
}

/// The keyframe packets of a document are those of its packets whose flags hold a K, in order.
pub proof fn lemma_keyframe_packets(raw: Json)
    ensures
        raw.member("packets"@) matches Json::Array(packets) ==> keyframe_packets(raw)
            == packets.filter(
            |p: Json| p.member("flags"@) is Text && p.member("flags"@)->Text_0.contains('K'),
        ),
        !(raw.member("packets"@) is Array) ==> keyframe_packets(raw).len() == 0,
{
    let flagged = |p: Json| is_keyframe(p);
    let direct = |p: Json|
        p.member("flags"@) is Text && p.member("flags"@)->Text_0.contains('K');
    assert forall|p: Json| #[trigger] flagged(p) == direct(p) by {
        assert(!Seq::<char>::empty().contains('K'));
    }
    assert(flagged =~= direct);
}

/// A packet whose flags hold a K, and whose time reads as `t` and as nothing else, has a keyframe
/// that is `t` or less than a millisecond from it.
pub proof fn lemma_every_keyframe<F: Fn(&str) -> Option<Binary64>>(
    read: F,
    raw: Json,
    readings: Seq<Option<Binary64>>,
    i: int,
    t: Binary64,
)
    requires
        keyframes_read(read, raw, readings),
        raw.member("packets"@) is Array,
        0 <= i < raw.member("packets"@)->Array_0.len(),
        ({
            let packet = raw.member("packets"@)->Array_0[i];
            &&& packet.member("flags"@) is Text
            &&& packet.member("flags"@)->Text_0.contains('K')
            &&& packet.member("pts_time"@) is Text
            &&& forall|s: &str, answer: Option<Binary64>|
                s@ == packet.member("pts_time"@)->Text_0 && #[trigger] call_ensures(
                    read,
                    (s,),
                    answer,
                ) ==> answer == Some(t)
        }),
    ensures
        readings.contains(Some(t)),
        exists|k: int|
            0 <= k < arranged(readings).len() && (t == #[trigger] arranged(readings)[k] || close(
                t,
                arranged(readings)[k],
            )),
{
    broadcast use group_to_multiset_ensures;

    let packets = raw.member("packets"@)->Array_0;
    let flagged = |p: Json| is_keyframe(p);
    assert(flagged(packets[i]));
    packets.lemma_filter_contains(flagged, i);
    let n = choose|n: int|
        0 <= n < packets.filter(flagged).len() && packets.filter(flagged)[n] == packets[i];
    assert(keyframe_packets(raw)[n] == packets[i]);
    assert(readings[n] == Some(t));
    lemma_told(readings);
    let times = told(readings);
    assert(times.contains(t));
    lemma_sorted_permutes(times);
    assert(times.to_multiset().count(t) == sorted(times).to_multiset().count(t));
    assert(sorted(times).contains(t));
    lemma_spaced_covers(sorted(times), t);
    let all = arranged(readings);
    let k = choose|k: int|
        0 <= k < all.len() && (t == #[trigger] all[k] || close(t, all[k]));
    assert(t == arranged(readings)[k] || close(t, arranged(readings)[k]));
}

/// Each keyframe is what the time of a packet was read as whose flags hold a K.
pub proof fn lemma_only_keyframes<F: Fn(&str) -> Option<Binary64>>(
    read: F,
    raw: Json,
    readings: Seq<Option<Binary64>>,
    k: int,
)
    requires
        keyframes_read(read, raw, readings),
        0 <= k < arranged(readings).len(),
    ensures
        raw.member("packets"@) is Array,
        exists|i: int, s: &str|
            #![trigger raw.member("packets"@)->Array_0[i], call_ensures(read, (s,), Some(arranged(readings)[k]))]
            {
                let packet = raw.member("packets"@)->Array_0[i];
                &&& 0 <= i < raw.member("packets"@)->Array_0.len()
                &&& packet.member("flags"@) is Text
                &&& packet.member("flags"@)->Text_0.contains('K')
                &&& packet.member("pts_time"@) == Json::Text(s@)
                &&& call_ensures(read, (s,), Some(arranged(readings)[k]))
            },
{
    broadcast use group_to_multiset_ensures;

    let t = arranged(readings)[k];
    let times = told(readings);
    lemma_told(readings);
    lemma_spaced_from(sorted(times));
    lemma_sorted_permutes(times);
    assert(sorted(times).contains(t));
    assert(times.to_multiset().count(t) == sorted(times).to_multiset().count(t));
    assert(times.contains(t));
    let n = choose|n: int| 0 <= n < readings.len() && readings[n] == Some(t);
    let packet = keyframe_packets(raw)[n];
    assert(answered_of(read, packet.member("pts_time"@), readings[n]));
    let packets = raw.member("packets"@)->Array_0;
    let flagged = |p: Json| is_keyframe(p);
    packets.lemma_filter_pred(flagged, n);
    packets.lemma_filter_contains_rev(flagged, packet);
    assert(!Seq::<char>::empty().contains('K'));
    let i = choose|i: int| 0 <= i < packets.len() && packets[i] == packet;
    let s = choose|s: &str|
        s@ == packet.member("pts_time"@)->Text_0 && #[trigger] call_ensures(
            read,
            (s,),
            readings[n],
        );
    assert(raw.member("packets"@)->Array_0[i] == packet);
    assert(call_ensures(read, (s,), Some(t)));
}

/// A keyframe pass gives the keyframes of the document that was written, where ffprobe succeeded
/// and wrote one. It gives none where ffprobe failed or wrote no document, and fails where it was
/// not spawned.
pub proof fn lemma_keyframes_found<F: Fn(&str) -> Option<Binary64>>(
    outcome: Outcome,
    read: F,
    r: Result<Vec<Binary64>, ProbeError>,
)
    requires
        keyframes_found(outcome, read, r),
    ensures
        outcome matches Outcome::NotSpawned(reason) ==> r is Err && r->Err_0@
            == Failure::Execution("keyframe pass failed to spawn: "@ + reason@),
        outcome matches Outcome::Exited { success, stdout, .. } ==> {
            &&& r is Ok
            &&& !success || json_document(stdout@) is None ==> r->Ok_0@.len() == 0
            &&& success && json_document(stdout@) is Some ==> exists|
                readings: Seq<Option<Binary64>>,
            | #[trigger]
                keyframes_read(read, json_document(stdout@)->0, readings) && r->Ok_0@ == arranged(
                    readings,
                )
        },
{
    if let Outcome::Exited { success, stdout, .. } = outcome {
        if success {
            let readings = choose|readings: Seq<Option<Binary64>>| #[trigger]
                keyframes_read(read, keyframe_document(stdout@), readings) && r->Ok_0@ == arranged(
                    readings,
                );
            if json_document(stdout@) is None {
                assert(readings =~= Seq::empty());
                assert(arranged(Seq::empty()) =~= Seq::empty());
            }
        }
    }
}

} // verus!
